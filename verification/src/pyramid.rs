use vstd::prelude::*;
use crate::block_match::{
    block_search, block_vector, diff, diff_height, diff_supported, diff_width, effective_block, expected_vectors,
    grid_cols, grid_rows, match_threshold, radius, BlockMatchOptions, BlockMatchResult, MotionVector, SearchMode,
};
use crate::buffer::{ImageView, RgbaBuffer};
use crate::sad::{block_fits, lemma_sad_until, sad_block};
use crate::search::{
    abs_int, lemma_cost_range, lemma_searches_ok, lemma_window_row_unfold, search_ok, window_row, window_rows, BlockSearch,
};

verus! {

/// The RGBA bytes that `image::imageops::resize` with the triangle filter
/// produces from a `width`×`height` image with bytes `src` at size
/// `new_width`×`new_height`.
pub uninterp spec fn triangle_resized(src: Seq<u8>, width: u32, height: u32, new_width: u32, new_height: u32) -> Seq<u8>;

/// Resamples an RGBA image with `image::imageops::resize` and
/// `FilterType::Triangle`. Trusted: the bytes are what that function
/// returns (named [`triangle_resized`]), `new_width * new_height * 4` of
/// them, as its buffers are allocated at the requested size.
#[verifier::external_body]
fn resize_triangle(src: &Vec<u8>, width: u32, height: u32, new_width: u32, new_height: u32) -> (out: Vec<u8>)
    requires
        src@.len() == width as int * height as int * 4,
        width as int * new_height as int * 16 <= isize::MAX,
        new_width as int * new_height as int * 4 <= isize::MAX,
    ensures
        out@ == triangle_resized(src@, width, height, new_width, new_height),
        out@.len() == new_width as int * new_height as int * 4,
{
    let img = image::RgbaImage::from_raw(width, height, src.clone()).unwrap();
    image::imageops::resize(&img, new_width, new_height, image::imageops::FilterType::Triangle).into_raw()
}

/// Block size of the coarse pass: `block_size / scale`, at least 2.
pub open spec fn coarse_block(opts: BlockMatchOptions, scale: int) -> int {
    let c = (opts.block_size as int) / scale;
    if c < 2 {
        2
    } else {
        c
    }
}

/// A side of a downscaled image: `side / scale`, at least `cb`.
pub open spec fn coarse_side(side: int, scale: int, cb: int) -> int {
    let c = side / scale;
    if c < cb {
        cb
    } else {
        c
    }
}

/// The image downscaled by `scale` (each side at least `cb`).
pub open spec fn coarse_view(img: ImageView, scale: int, cb: int) -> ImageView {
    let w = coarse_side(img.width as int, scale, cb);
    let h = coarse_side(img.height as int, scale, cb);
    ImageView {
        width: w as nat,
        height: h as nat,
        data: triangle_resized(img.data, img.width as u32, img.height as u32, w as u32, h as u32),
    }
}

/// A search radius for the coarse pass: `r / scale`, at least 1.
pub open spec fn coarse_radius(r: i32, scale: int) -> int {
    let c = (r as int) / scale;
    if c < 1 {
        1
    } else {
        c
    }
}

/// Options of the coarse pass.
pub open spec fn coarse_options(opts: BlockMatchOptions, scale: int) -> BlockMatchOptions {
    BlockMatchOptions {
        block_size: coarse_block(opts, scale) as u32,
        search_x: coarse_radius(opts.search_x, scale) as i32,
        search_y: coarse_radius(opts.search_y, scale) as i32,
        step: 1,
        threshold: opts.threshold,
        mode: SearchMode::Hierarchical,
        compute_confidence: false,
    }
}

/// Best so far during refinement: cost and displacement.
pub open spec fn improve(search: BlockSearch, s: (int, int, int), dx: int, dy: int) -> (int, int, int) {
    let c = search.cost(dx, dy);
    if c < s.0 {
        (c, dx, dy)
    } else {
        s
    }
}

/// Tries the candidates, each shifted by `(pdx, pdy)`, in order; a
/// candidate replaces the best only when strictly cheaper.
pub open spec fn improve_all(search: BlockSearch, s: (int, int, int), pdx: int, pdy: int, cands: Seq<(int, int)>) -> (int, int, int)
    decreases cands.len(),
{
    if cands.len() == 0 {
        s
    } else {
        improve_all(search, improve(search, s, pdx + cands[0].0, pdy + cands[0].1), pdx, pdy, cands.drop_first())
    }
}

/// Exhaustive search of the `±radius` window around the predicted
/// displacement `(pdx, pdy)`, which is tried first.
pub open spec fn refine_outcome(search: BlockSearch, pdx: int, pdy: int, radius: int) -> (int, int, int) {
    improve_all(search, (search.cost(pdx, pdy), pdx, pdy), pdx, pdy, window_rows(-radius, radius, radius, 1))
}

/// The vector of a refined block.
pub open spec fn refined_vector(search: BlockSearch, pdx: int, pdy: int, radius: int, threshold_total: int) -> MotionVector {
    let o = refine_outcome(search, pdx, pdy, radius);
    MotionVector { dx: o.1 as i32, dy: o.2 as i32, cost: o.0 as u64, second_cost: u64::MAX, matched: o.0 <= threshold_total }
}

/// The coarse block whose prediction full-resolution block `(bx, by)` uses:
/// the one containing its centre, clamped to the coarse grid.
pub open spec fn coarse_cell(b: int, scale: int, cb: int, n: int, coarse_n: int) -> int {
    let c = (n * b + b / 2) / scale / cb;
    let last = if coarse_n >= 1 { coarse_n - 1 } else { 0 };
    if c > last {
        last
    } else {
        c
    }
}

/// The full-resolution displacement predicted for block `(bx, by)`: the
/// vector of the coarse block that contains its centre, scaled back up.
pub open spec fn pyramid_prediction(r: ImageView, t: ImageView, opts: BlockMatchOptions, scale: int, bx: int, by: int) -> (
    int,
    int,
) {
    let cb = coarse_block(opts, scale);
    let cr = coarse_view(r, scale, cb);
    let ct = coarse_view(t, scale, cb);
    let copts = coarse_options(opts, scale);
    let b = opts.block_size as int;
    let cbx = coarse_cell(b, scale, cb, bx, grid_cols(cr, ct, copts));
    let cby = coarse_cell(b, scale, cb, by, grid_rows(cr, ct, copts));
    let predicted = block_vector(cr, ct, copts, cbx, cby);
    (predicted.dx * scale, predicted.dy * scale)
}

/// The vector of block `(bx, by)` in the two-level pyramid diff.
pub open spec fn pyramid_vector(
    r: ImageView,
    t: ImageView,
    opts: BlockMatchOptions,
    scale: int,
    refine_radius: int,
    bx: int,
    by: int,
) -> MotionVector {
    let p = pyramid_prediction(r, t, opts, scale, bx, by);
    refined_vector(block_search(r, t, opts, bx, by), p.0, p.1, refine_radius, match_threshold(opts))
}

pub open spec fn pyramid_vectors(
    r: ImageView,
    t: ImageView,
    opts: BlockMatchOptions,
    scale: int,
    refine_radius: int,
) -> Seq<MotionVector> {
    let cols = grid_cols(r, t, opts);
    Seq::new(
        (cols * grid_rows(r, t, opts)) as nat,
        |i: int| pyramid_vector(r, t, opts, scale, refine_radius, i % cols, i / cols),
    )
}

/// The inputs of the two-level pass: those of [`diff`], a non-zero block
/// size, a scale and search radii whose predicted and refined displacements
/// fit `i32`, and downscaled images whose buffers can be allocated.
pub open spec fn pyramid_supported(
    r: ImageView,
    t: ImageView,
    opts: BlockMatchOptions,
    scale: u32,
    refine_radius: i32,
) -> bool {
    let cb = coarse_block(opts, scale as int);
    let rr = if refine_radius < 0 { 0 } else { refine_radius as int };
    &&& diff_supported(r, t, opts)
    &&& opts.block_size >= 1
    &&& 765 * cb * cb <= u64::MAX
    &&& scale <= i32::MAX
    &&& refine_radius > i32::MIN
    &&& radius(opts.search_x) + scale + rr <= i32::MAX
    &&& radius(opts.search_y) + scale + rr <= i32::MAX
    &&& r.width * coarse_side(r.height as int, scale as int, cb) * 16 <= isize::MAX
    &&& coarse_side(r.width as int, scale as int, cb) * coarse_side(r.height as int, scale as int, cb) * 4 <= isize::MAX
    &&& coarse_side(r.width as int, scale as int, cb) * coarse_side(r.height as int, scale as int, cb) <= u32::MAX
    &&& t.width * coarse_side(t.height as int, scale as int, cb) * 16 <= isize::MAX
    &&& coarse_side(t.width as int, scale as int, cb) * coarse_side(t.height as int, scale as int, cb) * 4 <= isize::MAX
}

fn downscale(img: &RgbaBuffer, new_width: u32, new_height: u32) -> (out: RgbaBuffer)
    requires
        img@.width as int * new_height as int * 16 <= isize::MAX,
        new_width as int * new_height as int * 4 <= isize::MAX,
    ensures
        out@ == (ImageView {
            width: new_width as nat,
            height: new_height as nat,
            data: triangle_resized(img@.data, img@.width as u32, img@.height as u32, new_width, new_height),
        }),
{
    let w = img.width();
    let h = img.height();
    let data = resize_triangle(img.as_raw(), w, h, new_width, new_height);
    RgbaBuffer::from_raw(new_width, new_height, data).unwrap()
}

/// Searches the `±radius` window around the predicted displacement for the
/// cheapest match; stops at a perfect one.
fn refine_block(
    reference: &RgbaBuffer,
    target: &RgbaBuffer,
    rx: u32,
    ry: u32,
    block_size: u32,
    pdx: i64,
    pdy: i64,
    radius: i64,
    threshold_total: u64,
) -> (mv: MotionVector)
    requires
        rx + block_size <= reference@.width,
        ry + block_size <= reference@.height,
        rx <= i32::MAX,
        ry <= i32::MAX,
        1 <= block_size <= i32::MAX,
        765 * block_size * block_size <= u64::MAX,
        i32::MIN < radius <= i32::MAX,
        abs_int(pdx as int) + (if radius < 0 { 0 } else { radius as int }) <= i32::MAX,
        abs_int(pdy as int) + (if radius < 0 { 0 } else { radius as int }) <= i32::MAX,
    ensures
        mv == refined_vector(
            BlockSearch {
                reference: reference@,
                target: target@,
                rx: rx as int,
                ry: ry as int,
                size: block_size as int,
            },
            pdx as int,
            pdy as int,
            radius as int,
            threshold_total as int,
        ),
{
    let ghost search = BlockSearch {
        reference: reference@,
        target: target@,
        rx: rx as int,
        ry: ry as int,
        size: block_size as int,
    };
    let ghost rr = radius as int;
    let ghost goal = refine_outcome(search, pdx as int, pdy as int, rr);
    let _ = reference.width();
    let _ = target.width();
    let cx = rx as i64;
    let cy = ry as i64;
    let mut best_cost = sad_block(reference, target, rx, ry, cx + pdx, cy + pdy, block_size, u64::MAX);
    proof {
        lemma_cost_range(search, pdx as int, pdy as int);
        if block_fits(target@, cx + pdx, cy + pdy, block_size as int) {
            lemma_sad_until(reference@, target@, rx as int, ry as int, cx + pdx, cy + pdy, block_size as int, u64::MAX as int, 0);
        }
    }
    let mut best_dx = pdx;
    let mut best_dy = pdy;
    let mut dy: i64 = -radius;
    while dy <= radius
        invariant
            search == (BlockSearch {
                reference: reference@,
                target: target@,
                rx: rx as int,
                ry: ry as int,
                size: block_size as int,
            }),
            search_ok(search),
            reference@.wf(),
            target@.wf(),
            rx + block_size <= reference@.width,
            ry + block_size <= reference@.height,
            rx <= i32::MAX,
            ry <= i32::MAX,
            1 <= block_size <= i32::MAX,
            cx == rx,
            cy == ry,
            rr == radius,
            i32::MIN < radius <= i32::MAX,
            abs_int(pdx as int) + (if radius < 0 { 0 } else { radius as int }) <= i32::MAX,
            abs_int(pdy as int) + (if radius < 0 { 0 } else { radius as int }) <= i32::MAX,
            -radius <= dy,
            dy <= radius + 1 || radius < 0,
            goal == refine_outcome(search, pdx as int, pdy as int, rr),
            goal == improve_all(search, (best_cost as int, best_dx as int, best_dy as int), pdx as int, pdy as int, window_rows(dy as int, rr, rr, 1)),
            abs_int(best_dx - pdx) <= (if radius < 0 { 0 } else { radius as int }),
            abs_int(best_dy - pdy) <= (if radius < 0 { 0 } else { radius as int }),
            0 <= best_cost,
        decreases radius + 1 - dy,
    {
        let ghost rows_rest = window_rows(dy + 1, rr, rr, 1);
        assert(window_rows(dy as int, rr, rr, 1) == window_row(dy as int, -rr, rr, 1) + rows_rest);
        let mut dx: i64 = -radius;
        while dx <= radius
            invariant
                search == (BlockSearch {
                    reference: reference@,
                    target: target@,
                    rx: rx as int,
                    ry: ry as int,
                    size: block_size as int,
                }),
                search_ok(search),
                reference@.wf(),
                target@.wf(),
                rx + block_size <= reference@.width,
                ry + block_size <= reference@.height,
                rx <= i32::MAX,
                ry <= i32::MAX,
                1 <= block_size <= i32::MAX,
                cx == rx,
                cy == ry,
                rr == radius,
                0 <= radius <= i32::MAX,
                abs_int(pdx as int) + radius <= i32::MAX,
                abs_int(pdy as int) + radius <= i32::MAX,
                -radius <= dy <= radius,
                -radius <= dx <= radius + 1,
                rows_rest == window_rows(dy + 1, rr, rr, 1),
                goal == refine_outcome(search, pdx as int, pdy as int, rr),
                goal == improve_all(
                    search,
                    (best_cost as int, best_dx as int, best_dy as int),
                    pdx as int,
                    pdy as int,
                    window_row(dy as int, dx as int, rr, 1) + rows_rest,
                ),
                abs_int(best_dx - pdx) <= radius,
                abs_int(best_dy - pdy) <= radius,
                0 <= best_cost,
            decreases radius + 1 - dx,
        {
            proof {
                lemma_window_row_unfold(dy as int, dx as int, rr, 1, rows_rest);
            }
            if !(dx == 0 && dy == 0) {
                let ghost rest = window_row(dy as int, dx + 1, rr, 1) + rows_rest;
                assert((seq![(dx as int, dy as int)] + rest).drop_first() =~= rest);
                let tx = cx + pdx + dx;
                let ty = cy + pdy + dy;
                let cost = sad_block(reference, target, rx, ry, tx, ty, block_size, best_cost);
                proof {
                    let full = search.cost(pdx + dx, pdy + dy);
                    lemma_cost_range(search, pdx + dx, pdy + dy);
                    if block_fits(target@, tx as int, ty as int, block_size as int) {
                        lemma_sad_until(reference@, target@, rx as int, ry as int, tx as int, ty as int, block_size as int, best_cost as int, 0);
                    }
                    assert((cost < best_cost) == (full < best_cost));
                    assert(cost < best_cost ==> cost == full);
                }
                if cost < best_cost {
                    best_cost = cost;
                    best_dx = pdx + dx;
                    best_dy = pdy + dy;
                    if best_cost == 0 {
                        proof {
                            lemma_improve_all_keeps_zero(search, (0, best_dx as int, best_dy as int), pdx as int, pdy as int, rest);
                        }
                        return MotionVector {
                            dx: best_dx as i32,
                            dy: best_dy as i32,
                            cost: 0,
                            second_cost: u64::MAX,
                            matched: 0 <= threshold_total,
                        };
                    }
                }
            }
            dx = dx + 1;
        }
        assert(window_row(dy as int, dx as int, rr, 1) + rows_rest =~= rows_rest);
        dy = dy + 1;
    }
    proof {
        assert(window_rows(dy as int, rr, rr, 1) =~= Seq::<(int, int)>::empty());
    }
    MotionVector {
        dx: best_dx as i32,
        dy: best_dy as i32,
        cost: best_cost,
        second_cost: u64::MAX,
        matched: best_cost <= threshold_total,
    }
}

proof fn lemma_improve_all_keeps_zero(search: BlockSearch, s: (int, int, int), pdx: int, pdy: int, cands: Seq<(int, int)>)
    requires
        search_ok(search),
        s.0 == 0,
    ensures
        improve_all(search, s, pdx, pdy, cands) == s,
    decreases cands.len(),
{
    if cands.len() > 0 {
        lemma_cost_range(search, pdx + cands[0].0, pdy + cands[0].1);
        lemma_improve_all_keeps_zero(search, s, pdx, pdy, cands.drop_first());
    }
}

/// Two-level pyramid diff. With `coarse_scale < 2` this is [`diff`].
/// Otherwise both images are downscaled by `coarse_scale` (triangle
/// filter, each side at least the coarse block size
/// `max(block_size / coarse_scale, 2)`) and matched in hierarchical mode
/// with the search radii divided by the scale (at least 1); each
/// full-resolution block then takes the vector of the coarse block that
/// holds its centre, scaled back up, as a prediction and is searched
/// exhaustively within `±refine_radius` of it.
pub fn diff_pyramid(
    reference: &RgbaBuffer,
    target: &RgbaBuffer,
    opts: &BlockMatchOptions,
    coarse_scale: u32,
    refine_radius: i32,
) -> (result: BlockMatchResult)
    requires
        coarse_scale < 2 ==> diff_supported(reference@, target@, *opts),
        coarse_scale >= 2 ==> pyramid_supported(reference@, target@, *opts, coarse_scale, refine_radius),
    ensures
        result.width == diff_width(reference@, target@),
        result.height == diff_height(reference@, target@),
        result.cols == grid_cols(reference@, target@, *opts),
        result.rows == grid_rows(reference@, target@, *opts),
        result.block_size == effective_block(*opts),
        result.wf(),
        coarse_scale < 2 ==> result.vectors@ == expected_vectors(reference@, target@, *opts),
        coarse_scale >= 2 ==> result.vectors@ == pyramid_vectors(
            reference@,
            target@,
            *opts,
            coarse_scale as int,
            refine_radius as int,
        ),
{
    if coarse_scale < 2 {
        return diff(reference, target, opts);
    }
    let s = coarse_scale;
    let ghost si = s as int;
    let ghost r = reference@;
    let ghost t = target@;
    let cbq = opts.block_size / s;
    let cb: u32 = if cbq < 2 { 2 } else { cbq };
    assert(cb == coarse_block(*opts, si));
    let rw = reference.width();
    let rh = reference.height();
    let tw = target.width();
    let th = target.height();
    let cw: u32 = if rw / s < cb { cb } else { rw / s };
    let ch: u32 = if rh / s < cb { cb } else { rh / s };
    let tcw: u32 = if tw / s < cb { cb } else { tw / s };
    let tch: u32 = if th / s < cb { cb } else { th / s };
    let coarse_ref = downscale(reference, cw, ch);
    let coarse_tgt = downscale(target, tcw, tch);
    let _ = coarse_ref.width();
    let _ = coarse_tgt.width();
    let ghost cr = coarse_view(r, si, cb as int);
    let ghost ct = coarse_view(t, si, cb as int);
    assert(coarse_ref@ == cr);
    assert(coarse_tgt@ == ct);
    let csx: i32 = if opts.search_x < 1 {
        1
    } else {
        let q = (opts.search_x as u32 / s) as i32;
        if q < 1 { 1 } else { q }
    };
    let csy: i32 = if opts.search_y < 1 {
        1
    } else {
        let q = (opts.search_y as u32 / s) as i32;
        if q < 1 { 1 } else { q }
    };
    let copts = BlockMatchOptions {
        block_size: cb,
        search_x: csx,
        search_y: csy,
        step: 1,
        threshold: opts.threshold,
        mode: SearchMode::Hierarchical,
        compute_confidence: false,
    };
    let ghost b = opts.block_size as int;
    proof {
        if opts.search_x < 1 {
            assert((opts.search_x as int) / si < 1) by (nonlinear_arith)
                requires opts.search_x < 1, si >= 2;
        }
        if opts.search_y < 1 {
            assert((opts.search_y as int) / si < 1) by (nonlinear_arith)
                requires opts.search_y < 1, si >= 2;
        }
        assert(copts == coarse_options(*opts, si));
        assert(cb == 2 || cb as int <= b) by (nonlinear_arith)
            requires cb == 2 || cb as int == b / si, si >= 2, b >= 1;
        assert(cb <= i32::MAX) by (nonlinear_arith)
            requires cb == coarse_block(*opts, si), b * b * 3 <= u64::MAX, si >= 2, b >= 1;
        assert(cb as int * cb as int * 3 * opts.threshold <= u64::MAX) by (nonlinear_arith)
            requires cb == 2 || cb as int <= b, cb >= 2, b * b * 3 * opts.threshold <= u64::MAX, b >= 1,
                opts.threshold <= u32::MAX;
        assert(cb as int * cb as int * 3 <= u64::MAX) by (nonlinear_arith)
            requires cb <= i32::MAX;
        assert(diff_supported(cr, ct, copts));
    }
    let coarse = diff(&coarse_ref, &coarse_tgt, &copts);
    let block_size = opts.block_size;
    let width = if rw <= tw { rw } else { tw };
    let height = if rh <= th { rh } else { th };
    let cols = width / block_size;
    let rows = height / block_size;
    let b64 = block_size as u64;
    let threshold_total: u64 = b64 * b64 * 3 * opts.threshold as u64;
    let last_col: u32 = if coarse.cols >= 1 { coarse.cols - 1 } else { 0 };
    let last_row: u32 = if coarse.rows >= 1 { coarse.rows - 1 } else { 0 };
    let rr: i64 = refine_radius as i64;
    let ghost expected = pyramid_vectors(r, t, *opts, si, refine_radius as int);
    let ghost ccols = coarse.cols as int;
    let ghost crows = coarse.rows as int;
    proof {
        assert(ccols >= 1) by (nonlinear_arith)
            requires ccols == diff_width(cr, ct) / (cb as int), diff_width(cr, ct) >= cb, cb >= 2;
        assert(crows >= 1) by (nonlinear_arith)
            requires crows == diff_height(cr, ct) / (cb as int), diff_height(cr, ct) >= cb, cb >= 2;
    }
    let mut vectors: Vec<MotionVector> = Vec::new();
    let mut by: u32 = 0;
    while by < rows
        invariant
            r == reference@,
            t == target@,
            r.wf(),
            t.wf(),
            pyramid_supported(r, t, *opts, coarse_scale, refine_radius),
            si == s,
            s == coarse_scale,
            s >= 2,
            b == block_size,
            block_size >= 1,
            effective_block(*opts) == b,
            cb == coarse_block(*opts, si),
            cr == coarse_view(r, si, cb as int),
            ct == coarse_view(t, si, cb as int),
            cr.wf(),
            ct.wf(),
            copts == coarse_options(*opts, si),
            copts.search_x == csx,
            copts.search_y == csy,
            csx as int == coarse_radius(opts.search_x, si),
            csy as int == coarse_radius(opts.search_y, si),
            coarse.cols == ccols,
            coarse.rows == crows,
            ccols >= 1,
            crows >= 1,
            ccols == grid_cols(cr, ct, copts),
            crows == grid_rows(cr, ct, copts),
            coarse.vectors@ == expected_vectors(cr, ct, copts),
            last_col == ccols - 1,
            last_row == crows - 1,
            width == diff_width(r, t),
            height == diff_height(r, t),
            cols == grid_cols(r, t, *opts),
            rows == grid_rows(r, t, *opts),
            threshold_total == match_threshold(*opts),
            rr == refine_radius,
            expected == pyramid_vectors(r, t, *opts, si, refine_radius as int),
            by <= rows,
            vectors@ =~= expected.take(by * cols),
        decreases rows - by,
    {
        let mut bx: u32 = 0;
        while bx < cols
            invariant
                r == reference@,
                t == target@,
                r.wf(),
                t.wf(),
                pyramid_supported(r, t, *opts, coarse_scale, refine_radius),
                si == s,
                s == coarse_scale,
                s >= 2,
                b == block_size,
                block_size >= 1,
                effective_block(*opts) == b,
                cb == coarse_block(*opts, si),
                cr == coarse_view(r, si, cb as int),
                ct == coarse_view(t, si, cb as int),
                cr.wf(),
                ct.wf(),
                copts == coarse_options(*opts, si),
                copts.search_x == csx,
                copts.search_y == csy,
                csx as int == coarse_radius(opts.search_x, si),
                csy as int == coarse_radius(opts.search_y, si),
                coarse.cols == ccols,
                coarse.rows == crows,
                ccols >= 1,
                crows >= 1,
                ccols == grid_cols(cr, ct, copts),
                crows == grid_rows(cr, ct, copts),
                coarse.vectors@ == expected_vectors(cr, ct, copts),
                last_col == ccols - 1,
                last_row == crows - 1,
                width == diff_width(r, t),
                height == diff_height(r, t),
                cols == grid_cols(r, t, *opts),
                rows == grid_rows(r, t, *opts),
                threshold_total == match_threshold(*opts),
                rr == refine_radius,
                expected == pyramid_vectors(r, t, *opts, si, refine_radius as int),
                by < rows,
                bx <= cols,
                vectors@ =~= expected.take(by * cols + bx),
            decreases cols - bx,
        {
            proof {
                assert(bx * b + b <= width) by (nonlinear_arith)
                    requires bx < (width as int) / b, b >= 1, width >= 0;
                assert(by * b + b <= height) by (nonlinear_arith)
                    requires by < (height as int) / b, b >= 1, height >= 0;
                assert(bx * b >= 0 && by * b >= 0) by (nonlinear_arith)
                    requires bx >= 0, by >= 0, b >= 1;
            }
            let rx = bx * block_size;
            let ry = by * block_size;
            let qx = (rx + block_size / 2) / s / cb;
            let qy = (ry + block_size / 2) / s / cb;
            let cbx = if qx > last_col { last_col } else { qx };
            let cby = if qy > last_row { last_row } else { qy };
            proof {
                assert(cbx == coarse_cell(b, si, cb as int, bx as int, ccols));
                assert(cby == coarse_cell(b, si, cb as int, by as int, crows));
                assert(cby * ccols + cbx < ccols * crows) by (nonlinear_arith)
                    requires cbx < ccols, cby < crows;
                assert(ccols <= cr.width && crows <= cr.height) by (nonlinear_arith)
                    requires ccols == diff_width(cr, ct) / (cb as int), crows == diff_height(cr, ct) / (cb as int),
                        diff_width(cr, ct) <= cr.width, diff_height(cr, ct) <= cr.height, cb >= 2, diff_width(cr, ct) >= 0,
                        diff_height(cr, ct) >= 0;
                assert(ccols * crows <= cr.width * cr.height) by (nonlinear_arith)
                    requires 0 <= ccols <= cr.width, 0 <= crows <= cr.height;
                assert(cr.width == coarse_side(r.width as int, si, cb as int));
                assert(cr.height == coarse_side(r.height as int, si, cb as int));
                assert(cr.width * cr.height <= u32::MAX);
            }
            let predicted = *coarse.get(cbx, cby);
            proof {
                let ci = cby * ccols + cbx;
                vstd::arithmetic::div_mod::lemma_fundamental_div_mod_converse(ci, ccols, cby as int, cbx as int);
                assert(predicted == block_vector(cr, ct, copts, cbx as int, cby as int));
                let search = block_search(cr, ct, copts, cbx as int, cby as int);
                assert(copts.block_size == cb);
                assert(search.size == cb as int);
                assert(765 * cb * cb <= u64::MAX);
                lemma_searches_ok(search, radius(csx), radius(csy), 1);
                let o = crate::block_match::block_outcome(cr, ct, copts, cbx as int, cby as int);
                assert(abs_int(o.best_dx) <= csx && abs_int(o.best_dy) <= csy);
                assert(predicted.dx == o.best_dx);
                assert(predicted.dy == o.best_dy);
                let sx = radius(opts.search_x);
                let sy = radius(opts.search_y);
                if opts.search_x < 0 {
                    assert((opts.search_x as int) / si < 1) by (nonlinear_arith)
                        requires opts.search_x < 0, si >= 2;
                }
                if opts.search_y < 0 {
                    assert((opts.search_y as int) / si < 1) by (nonlinear_arith)
                        requires opts.search_y < 0, si >= 2;
                }
                assert(csx == 1 || (csx as int == sx / si && sx >= 0));
                assert(csy == 1 || (csy as int == sy / si && sy >= 0));
                assert(csx as int * si <= sx + si) by (nonlinear_arith)
                    requires csx == 1 || (csx as int == sx / si && sx >= 0), si >= 2, sx >= 0;
                assert(csy as int * si <= sy + si) by (nonlinear_arith)
                    requires csy == 1 || (csy as int == sy / si && sy >= 0), si >= 2, sy >= 0;
                assert(abs_int(predicted.dx as int * si) <= csx as int * si) by (nonlinear_arith)
                    requires abs_int(predicted.dx as int) <= csx, si >= 2;
                assert(abs_int(predicted.dy as int * si) <= csy as int * si) by (nonlinear_arith)
                    requires abs_int(predicted.dy as int) <= csy, si >= 2;
            }
            let pdx = predicted.dx as i64 * s as i64;
            let pdy = predicted.dy as i64 * s as i64;
            let mv = refine_block(reference, target, rx, ry, block_size, pdx, pdy, rr, threshold_total);
            proof {
                let i = by * cols + bx;
                assert(i < cols * rows) by (nonlinear_arith)
                    requires bx < cols, by < rows, i == by * cols + bx;
                vstd::arithmetic::div_mod::lemma_fundamental_div_mod_converse(i, cols as int, by as int, bx as int);
                assert(expected[i] == mv);
            }
            vectors.push(mv);
            bx = bx + 1;
        }
        proof {
            assert(by * cols + cols == (by + 1) * cols) by (nonlinear_arith);
        }
        by = by + 1;
    }
    proof {
        assert(rows * cols == cols * rows) by (nonlinear_arith);
    }
    BlockMatchResult { block_size, cols, rows, width, height, vectors }
}

} // verus!
