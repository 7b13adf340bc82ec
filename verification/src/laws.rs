use vstd::prelude::*;
use crate::block_match::{
    Region,
    block_search, block_vector, diff_height, diff_supported, diff_width, effective_block, effective_step, grid_cols,
    block_outcome, runner_candidates, scan_step, confidence_spec, expected_vectors, grid_rows, match_threshold, radius, BlockMatchOptions, MotionVector, SearchMode,
};
use crate::render::{
    abs_val, blend_with, fill_with, in_outline, in_rect, line_points, line_walk, paint_region_view, HighlightStyle, FILLED_ALPHA,
};
use crate::canvas::lemma_repaint_channel;
use crate::pyramid::{coarse_block, coarse_cell, coarse_options, coarse_view, improve, improve_all, pyramid_prediction, pyramid_supported, pyramid_vector, refine_outcome};
use crate::clustering::{
    adjacent, cluster, cluster_region, connected, is_path, lemma_connected_ends, lemma_connected_extend,
    lemma_connected_refl, highest_col, highest_row, lowest_col, lowest_row, near, rm_before,
    cell_index, corner_le, insert_by_corner, lemma_insert_keeps, sort_by_corner, dilated_at, gap_radius, halo_flags, in_grid, is_leader, mask_at, regions_from, regions_of,
    unmatched_flags,
};
use crate::report::{png_match_options, png_regions, png_supported, png_vectors, PngDiffOptions};
use crate::smoothing::{flag_at, inside_at, matched_flags, smoothed};
use crate::buffer::ImageView;
use crate::sad::{block_fits, block_sad, lemma_rows_sad_bounds, row_sad, rows_sad};
use crate::search::{
    hierarchical_probes, refine_probes, ring_probes, distinct_min, initial_state, reported_second, scan_candidates, abs_int, coarse_stride, far_apart, full_search, hierarchical_search, lemma_cost_range, lemma_refine_keeps_zero,
    lemma_searches_ok, lemma_visit_all_keeps_zero, neighbor,
    probe, probe_ring, refine, start_state, state_ok, search_ok, visit, visit_all, window_row, window_rows, BlockSearch,
    SearchState,
};

verus! {

// ----- what a search state records -----

/// The cost a search state records is real: a best cost below `u64::MAX`
/// is the SAD at the best displacement.
pub open spec fn state_genuine(search: BlockSearch, s: SearchState) -> bool {
    &&& 0 <= s.best_cost <= u64::MAX
    &&& s.best_cost < u64::MAX ==> s.best_cost == search.cost(s.best_dx, s.best_dy)
}

/// `v` is one of the displacements `-r, -r + step, …` up to `r`.
pub open spec fn sampled(v: int, r: int, step: int) -> bool {
    -r <= v <= r && (v + r) % step == 0
}

/// The displacements a scan with stride `step` tries: no displacement at
/// all, and every sampled displacement of the window.
pub open spec fn scanned(dx: int, dy: int, sx: int, sy: int, step: int) -> bool {
    (dx == 0 && dy == 0) || (sampled(dx, sx, step) && sampled(dy, sy, step))
}

proof fn lemma_visit_genuine(search: BlockSearch, s: SearchState, dx: int, dy: int)
    requires
        search_ok(search),
        state_genuine(search, s),
    ensures
        state_genuine(search, visit(search, s, dx, dy)),
        visit(search, s, dx, dy).best_cost <= s.best_cost,
        visit(search, s, dx, dy).best_cost <= search.cost(dx, dy),
{
    lemma_cost_range(search, dx, dy);
}

proof fn lemma_visit_all_genuine(search: BlockSearch, s: SearchState, cands: Seq<(int, int)>)
    requires
        search_ok(search),
        state_genuine(search, s),
    ensures
        state_genuine(search, visit_all(search, s, cands)),
        visit_all(search, s, cands).best_cost <= s.best_cost,
        forall|k: int|
            0 <= k < cands.len() ==> visit_all(search, s, cands).best_cost <= search.cost(
                #[trigger] cands[k].0,
                cands[k].1,
            ),
    decreases cands.len(),
{
    if cands.len() > 0 {
        let s1 = visit(search, s, cands[0].0, cands[0].1);
        lemma_visit_genuine(search, s, cands[0].0, cands[0].1);
        lemma_visit_all_genuine(search, s1, cands.drop_first());
        assert forall|k: int| 0 <= k < cands.len() implies visit_all(search, s, cands).best_cost <= search.cost(
            #[trigger] cands[k].0,
            cands[k].1,
        ) by {
            if k > 0 {
                assert(cands.drop_first()[k - 1] == cands[k]);
            }
        }
    }
}

proof fn lemma_probe_ring_genuine(search: BlockSearch, s: SearchState, sx: int, sy: int, stride: int, k: int)
    requires
        search_ok(search),
        state_genuine(search, s),
    ensures
        state_genuine(search, probe_ring(search, s, sx, sy, stride, k)),
        probe_ring(search, s, sx, sy, stride, k).best_cost <= s.best_cost,
    decreases 8 - k,
{
    if k < 8 {
        let dx = s.best_dx + neighbor(k).0 * stride;
        let dy = s.best_dy + neighbor(k).1 * stride;
        if !(abs_int(dx) > sx || abs_int(dy) > sy) {
            lemma_visit_genuine(search, s, dx, dy);
        }
        lemma_probe_ring_genuine(search, probe(search, s, sx, sy, stride, k), sx, sy, stride, k + 1);
    }
}

proof fn lemma_refine_genuine(search: BlockSearch, s: SearchState, sx: int, sy: int, stride: int)
    requires
        search_ok(search),
        state_genuine(search, s),
    ensures
        state_genuine(search, refine(search, s, sx, sy, stride)),
        refine(search, s, sx, sy, stride).best_cost <= s.best_cost,
    decreases stride,
{
    lemma_probe_ring_genuine(search, s, sx, sy, stride, 0);
    if stride > 1 {
        lemma_refine_genuine(search, probe_ring(search, s, sx, sy, stride, 0), sx, sy, stride / 2);
    }
}

// ----- which displacements a scan visits -----

proof fn lemma_window_row_has(dy: int, dx: int, sx: int, step: int, i: int)
    requires
        step > 0,
        i >= 0,
        dx + i * step <= sx,
        !(dx + i * step == 0 && dy == 0),
    ensures
        window_row(dy, dx, sx, step).contains((dx + i * step, dy)),
    decreases i,
{
    assert(i * step >= 0) by (nonlinear_arith)
        requires i >= 0, step > 0;
    let w = window_row(dy, dx, sx, step);
    let rest = window_row(dy, dx + step, sx, step);
    let p = (dx + i * step, dy);
    if i == 0 {
        assert(i * step == 0) by (nonlinear_arith)
            requires i == 0;
        assert(w == seq![(dx, dy)] + rest);
        assert(w[0] == p);
    } else {
        assert(dx + step + (i - 1) * step == dx + i * step) by (nonlinear_arith);
        lemma_window_row_has(dy, dx + step, sx, step, i - 1);
        let k = choose|k: int| 0 <= k < rest.len() && rest[k] == p;
        if dx == 0 && dy == 0 {
            assert(w == rest);
            assert(w[k] == p);
        } else {
            assert(w[k + 1] == rest[k]);
        }
    }
}

proof fn lemma_window_rows_has(dy: int, sy: int, sx: int, step: int, i: int, j: int)
    requires
        step > 0,
        i >= 0,
        j >= 0,
        -sx + i * step <= sx,
        dy + j * step <= sy,
        !(-sx + i * step == 0 && dy + j * step == 0),
    ensures
        window_rows(dy, sy, sx, step).contains((-sx + i * step, dy + j * step)),
    decreases j,
{
    assert(j * step >= 0) by (nonlinear_arith)
        requires j >= 0, step > 0;
    let a = window_row(dy, -sx, sx, step);
    let b = window_rows(dy + step, sy, sx, step);
    let p = (-sx + i * step, dy + j * step);
    assert(window_rows(dy, sy, sx, step) == a + b);
    if j == 0 {
        assert(j * step == 0) by (nonlinear_arith)
            requires j == 0;
        lemma_window_row_has(dy, -sx, sx, step, i);
        let k = choose|k: int| 0 <= k < a.len() && a[k] == p;
        assert((a + b)[k] == a[k]);
    } else {
        assert(dy + step + (j - 1) * step == dy + j * step) by (nonlinear_arith);
        lemma_window_rows_has(dy + step, sy, sx, step, i, j - 1);
        let k = choose|k: int| 0 <= k < b.len() && b[k] == p;
        assert((a + b)[a.len() + k] == b[k]);
    }
}

/// A sampled displacement other than `(0, 0)` is among the window rows.
proof fn lemma_sampled_in_window(dx: int, dy: int, sx: int, sy: int, step: int)
    requires
        step > 0,
        sampled(dx, sx, step),
        sampled(dy, sy, step),
        !(dx == 0 && dy == 0),
    ensures
        window_rows(-sy, sy, sx, step).contains((dx, dy)),
{
    let i = (dx + sx) / step;
    let j = (dy + sy) / step;
    vstd::arithmetic::div_mod::lemma_fundamental_div_mod(dx + sx, step);
    vstd::arithmetic::div_mod::lemma_fundamental_div_mod(dy + sy, step);
    assert(i >= 0 && j >= 0) by {
        vstd::arithmetic::div_mod::lemma_div_pos_is_pos(dx + sx, step);
        vstd::arithmetic::div_mod::lemma_div_pos_is_pos(dy + sy, step);
    }
    assert(i * step == step * i) by (nonlinear_arith);
    assert(j * step == step * j) by (nonlinear_arith);
    lemma_window_rows_has(-sy, sy, sx, step, i, j);
}

/// A scan with stride `step` that starts from the undisplaced block ends
/// no worse than any displacement it tries, in a genuine state.
proof fn lemma_scan_facts(search: BlockSearch, sx: int, sy: int, step: int, dx: int, dy: int)
    requires
        search_ok(search),
        step > 0,
        scanned(dx, dy, sx, sy, step),
    ensures
        state_genuine(search, visit_all(search, start_state(search), window_rows(-sy, sy, sx, step))),
        visit_all(search, start_state(search), window_rows(-sy, sy, sx, step)).best_cost <= search.cost(dx, dy),
{
    let s0 = SearchState { best_cost: u64::MAX as int, best_dx: 0, best_dy: 0 };
    lemma_visit_genuine(search, s0, 0, 0);
    let rows = window_rows(-sy, sy, sx, step);
    lemma_visit_all_genuine(search, start_state(search), rows);
    if !(dx == 0 && dy == 0) {
        lemma_sampled_in_window(dx, dy, sx, sy, step);
        let k = choose|k: int| 0 <= k < rows.len() && rows[k] == (dx, dy);
        assert(rows[k].0 == dx && rows[k].1 == dy);
    }
}

/// The state in which the search of block `(bx, by)` ends.
proof fn lemma_block_setup(r: ImageView, t: ImageView, opts: BlockMatchOptions, bx: int, by: int)
    requires
        r.wf(),
        t.wf(),
        diff_supported(r, t, opts),
        0 <= bx < grid_cols(r, t, opts),
        0 <= by < grid_rows(r, t, opts),
    ensures
        search_ok(block_search(r, t, opts, bx, by)),
        block_fits(t, bx * effective_block(opts), by * effective_block(opts), effective_block(opts)),
        0 <= block_search(r, t, opts, bx, by).cost(0, 0) < u64::MAX,
{
    let b = effective_block(opts);
    let w = diff_width(r, t);
    let h = diff_height(r, t);
    assert(bx * b + b <= w) by (nonlinear_arith)
        requires bx < w / b, b >= 1, w >= 0;
    assert(by * b + b <= h) by (nonlinear_arith)
        requires by < h / b, b >= 1, h >= 0;
    assert(b <= w) by (nonlinear_arith)
        requires bx * b + b <= w, bx >= 0, b >= 1;
    assert(b <= h) by (nonlinear_arith)
        requires by * b + b <= h, by >= 0, b >= 1;
    assert(bx * b >= 0 && by * b >= 0) by (nonlinear_arith)
        requires bx >= 0, by >= 0, b >= 1;
    lemma_rows_sad_bounds(r, t, bx * b, by * b, bx * b, by * b, b, b);
    let k = 85 * b * b;
    assert(765 * b * b == 9 * k) by (nonlinear_arith)
        requires k == 85 * b * b;
    assert(9 * k != 0xffff_ffff_ffff_ffffint);
}

proof fn lemma_ring_probes_facts(search: BlockSearch, s: SearchState, sx: int, sy: int, stride: int, k: int)
    requires
        search_ok(search),
        state_genuine(search, s),
    ensures
        forall|j: int|
            0 <= j < ring_probes(search, s, sx, sy, stride, k).len() ==> {
                let p = #[trigger] ring_probes(search, s, sx, sy, stride, k)[j];
                &&& probe_ring(search, s, sx, sy, stride, k).best_cost <= search.cost(p.0, p.1)
                &&& abs_int(p.0) <= sx
                &&& abs_int(p.1) <= sy
            },
    decreases 8 - k,
{
    if k < 8 {
        let dx = s.best_dx + neighbor(k).0 * stride;
        let dy = s.best_dy + neighbor(k).1 * stride;
        let s1 = probe(search, s, sx, sy, stride, k);
        if !(abs_int(dx) > sx || abs_int(dy) > sy) {
            lemma_visit_genuine(search, s, dx, dy);
        }
        lemma_ring_probes_facts(search, s1, sx, sy, stride, k + 1);
        lemma_probe_ring_genuine(search, s1, sx, sy, stride, k + 1);
        assert(probe_ring(search, s, sx, sy, stride, k) == probe_ring(search, s1, sx, sy, stride, k + 1));
        if abs_int(dx) > sx || abs_int(dy) > sy {
            assert(ring_probes(search, s, sx, sy, stride, k) == ring_probes(search, s1, sx, sy, stride, k + 1));
        } else {
            let rest = ring_probes(search, s1, sx, sy, stride, k + 1);
            let all = ring_probes(search, s, sx, sy, stride, k);
            assert(all == seq![(dx, dy)] + rest);
            assert(s1.best_cost <= search.cost(dx, dy));
            assert forall|j: int| 0 <= j < all.len() implies {
                let p = #[trigger] all[j];
                &&& probe_ring(search, s, sx, sy, stride, k).best_cost <= search.cost(p.0, p.1)
                &&& abs_int(p.0) <= sx
                &&& abs_int(p.1) <= sy
            } by {
                if j > 0 {
                    assert(all[j] == rest[j - 1]);
                }
            }
        }
    }
}

proof fn lemma_refine_probes_facts(search: BlockSearch, s: SearchState, sx: int, sy: int, stride: int)
    requires
        search_ok(search),
        state_genuine(search, s),
    ensures
        forall|j: int|
            0 <= j < refine_probes(search, s, sx, sy, stride).len() ==> {
                let p = #[trigger] refine_probes(search, s, sx, sy, stride)[j];
                &&& refine(search, s, sx, sy, stride).best_cost <= search.cost(p.0, p.1)
                &&& abs_int(p.0) <= sx
                &&& abs_int(p.1) <= sy
            },
    decreases stride,
{
    let here = ring_probes(search, s, sx, sy, stride, 0);
    let s1 = probe_ring(search, s, sx, sy, stride, 0);
    lemma_ring_probes_facts(search, s, sx, sy, stride, 0);
    lemma_probe_ring_genuine(search, s, sx, sy, stride, 0);
    if stride > 1 {
        let next = refine_probes(search, s1, sx, sy, stride / 2);
        lemma_refine_probes_facts(search, s1, sx, sy, stride / 2);
        lemma_refine_genuine(search, s1, sx, sy, stride / 2);
        let all = refine_probes(search, s, sx, sy, stride);
        assert(all == here + next);
        assert forall|j: int| 0 <= j < all.len() implies {
            let p = #[trigger] all[j];
            &&& refine(search, s, sx, sy, stride).best_cost <= search.cost(p.0, p.1)
            &&& abs_int(p.0) <= sx
            &&& abs_int(p.1) <= sy
        } by {
            if j < here.len() {
                assert(all[j] == here[j]);
            } else {
                assert(all[j] == next[j - here.len()]);
            }
        }
    }
}

/// The candidates whose runner-up is reported start with the uniform
/// scan, and all lie in the window.
proof fn lemma_runner_candidates(search: BlockSearch, opts: BlockMatchOptions)
    requires
        search_ok(search),
        search.size == effective_block(opts),
    ensures
        ({
            let sx = radius(opts.search_x);
            let sy = radius(opts.search_y);
            let cands = runner_candidates(search, opts);
            let scan = scan_candidates(sx, sy, scan_step(opts));
            &&& scan.len() <= cands.len()
            &&& forall|k: int| 0 <= k < scan.len() ==> #[trigger] cands[k] == scan[k]
            &&& forall|k: int| 0 <= k < cands.len() ==> abs_int(#[trigger] cands[k].0) <= sx && abs_int(cands[k].1) <= sy
        }),
{
    let sx = radius(opts.search_x);
    let sy = radius(opts.search_y);
    let step = scan_step(opts);
    let cands = runner_candidates(search, opts);
    let scan = scan_candidates(sx, sy, step);
    let rows = window_rows(-sy, sy, sx, step);
    crate::search::lemma_window_rows_in(-sy, sy, sx, step);
    assert forall|k: int| 0 <= k < scan.len() implies abs_int(#[trigger] scan[k].0) <= sx && abs_int(scan[k].1) <= sy by {
        if k > 0 {
            assert(scan[k] == rows[k - 1]);
        }
    }
    if opts.mode == SearchMode::Hierarchical {
        let s0 = initial_state();
        lemma_visit_genuine(search, s0, 0, 0);
        lemma_visit_all_genuine(search, start_state(search), rows);
        let s1 = visit_all(search, start_state(search), rows);
        let probes = hierarchical_probes(search, sx, sy);
        lemma_refine_probes_facts(search, s1, sx, sy, if step / 2 < 1 { 1 } else { step / 2 });
        assert(cands == scan + probes);
        assert forall|k: int| 0 <= k < cands.len() implies abs_int(#[trigger] cands[k].0) <= sx && abs_int(cands[k].1) <= sy by {
            if k < scan.len() {
                assert(cands[k] == scan[k]);
            } else {
                assert(cands[k] == probes[k - scan.len()]);
            }
        }
    }
}

/// The search of block `(bx, by)` under the mode's own stride: the
/// outcome is genuine, lies in the window, and is no worse than any
/// displacement the scan tries.
proof fn lemma_block_outcome(r: ImageView, t: ImageView, opts: BlockMatchOptions, bx: int, by: int, dx: int, dy: int)
    requires
        r.wf(),
        t.wf(),
        diff_supported(r, t, opts),
        0 <= bx < grid_cols(r, t, opts),
        0 <= by < grid_rows(r, t, opts),
    ensures
        ({
            let search = block_search(r, t, opts, bx, by);
            let sx = radius(opts.search_x);
            let sy = radius(opts.search_y);
            let s = match opts.mode {
                SearchMode::Full => full_search(search, sx, sy, effective_step(opts)),
                SearchMode::Hierarchical => hierarchical_search(search, sx, sy),
            };
            let step = scan_step(opts);
            &&& state_genuine(search, s)
            &&& state_ok(s, sx, sy)
            &&& s.best_cost <= search.cost(0, 0)
            &&& scanned(dx, dy, sx, sy, step) ==> s.best_cost <= search.cost(dx, dy)
            &&& forall|k: int|
                0 <= k < runner_candidates(search, opts).len() ==> s.best_cost <= search.cost(
                    #[trigger] runner_candidates(search, opts)[k].0,
                    runner_candidates(search, opts)[k].1,
                )
        }),
{
    let search = block_search(r, t, opts, bx, by);
    let sx = radius(opts.search_x);
    let sy = radius(opts.search_y);
    lemma_block_setup(r, t, opts, bx, by);
    lemma_searches_ok(search, sx, sy, effective_step(opts));
    match opts.mode {
        SearchMode::Full => {
            let step = effective_step(opts);
            lemma_scan_facts(search, sx, sy, step, 0, 0);
            if scanned(dx, dy, sx, sy, step) {
                lemma_scan_facts(search, sx, sy, step, dx, dy);
            }
            lemma_scan_all(search, sx, sy, step);
        },
        SearchMode::Hierarchical => {
            let step = coarse_stride(sx, sy, search.size);
            let s1 = visit_all(search, start_state(search), window_rows(-sy, sy, sx, step));
            lemma_scan_facts(search, sx, sy, step, 0, 0);
            if scanned(dx, dy, sx, sy, step) {
                lemma_scan_facts(search, sx, sy, step, dx, dy);
            }
            lemma_refine_genuine(search, s1, sx, sy, if step / 2 < 1 { 1 } else { step / 2 });
            lemma_scan_all(search, sx, sy, step);
            lemma_refine_probes_facts(search, s1, sx, sy, if step / 2 < 1 { 1 } else { step / 2 });
            let scan = scan_candidates(sx, sy, step);
            let probes = hierarchical_probes(search, sx, sy);
            let cands = runner_candidates(search, opts);
            let s2 = hierarchical_search(search, sx, sy);
            assert(cands == scan + probes);
            assert forall|k: int| 0 <= k < cands.len() implies s2.best_cost <= search.cost(
                #[trigger] cands[k].0,
                cands[k].1,
            ) by {
                if k < scan.len() {
                    assert(cands[k] == scan[k]);
                } else {
                    assert(cands[k] == probes[k - scan.len()]);
                }
            }
        },
    }
}

/// A scan from the undisplaced block ends no worse than any of its
/// candidates.
proof fn lemma_scan_all(search: BlockSearch, sx: int, sy: int, step: int)
    requires
        search_ok(search),
        step > 0,
    ensures
        forall|k: int|
            0 <= k < scan_candidates(sx, sy, step).len() ==> visit_all(
                search,
                start_state(search),
                window_rows(-sy, sy, sx, step),
            ).best_cost <= search.cost(
                #[trigger] scan_candidates(sx, sy, step)[k].0,
                scan_candidates(sx, sy, step)[k].1,
            ),
{
    let s0 = SearchState { best_cost: u64::MAX as int, best_dx: 0, best_dy: 0 };
    lemma_visit_genuine(search, s0, 0, 0);
    let rows = window_rows(-sy, sy, sx, step);
    let cands = scan_candidates(sx, sy, step);
    lemma_visit_all_genuine(search, start_state(search), rows);
    assert forall|k: int| 0 <= k < cands.len() implies visit_all(search, start_state(search), rows).best_cost
        <= search.cost(#[trigger] cands[k].0, cands[k].1) by {
        if k > 0 {
            assert(cands[k] == rows[k - 1]);
        }
    }
}

// ----- laws of the block matcher -----

/// In full mode the cost reported for a block is no larger than the SAD at
/// no displacement and at every displacement of the window sampled every
/// `step`: a block is reported unmatched only when none of those
/// displacements matches within the threshold.
pub proof fn law_full_search_is_optimal(
    r: ImageView,
    t: ImageView,
    opts: BlockMatchOptions,
    bx: int,
    by: int,
    dx: int,
    dy: int,
)
    requires
        r.wf(),
        t.wf(),
        diff_supported(r, t, opts),
        opts.mode == SearchMode::Full,
        0 <= bx < grid_cols(r, t, opts),
        0 <= by < grid_rows(r, t, opts),
        scanned(dx, dy, radius(opts.search_x), radius(opts.search_y), effective_step(opts)),
    ensures
        block_vector(r, t, opts, bx, by).cost <= block_search(r, t, opts, bx, by).cost(dx, dy),
        !block_vector(r, t, opts, bx, by).matched ==> block_search(r, t, opts, bx, by).cost(dx, dy) > match_threshold(
            opts,
        ),
{
    lemma_block_outcome(r, t, opts, bx, by, dx, dy);
}

/// In hierarchical mode the cost reported for a block is no larger than
/// the SAD at no displacement and at every displacement of the window
/// sampled at the coarse stride: the refinement never loses what the
/// coarse scan found.
pub proof fn law_hierarchical_search_beats_coarse_scan(
    r: ImageView,
    t: ImageView,
    opts: BlockMatchOptions,
    bx: int,
    by: int,
    dx: int,
    dy: int,
)
    requires
        r.wf(),
        t.wf(),
        diff_supported(r, t, opts),
        opts.mode == SearchMode::Hierarchical,
        0 <= bx < grid_cols(r, t, opts),
        0 <= by < grid_rows(r, t, opts),
        scanned(
            dx,
            dy,
            radius(opts.search_x),
            radius(opts.search_y),
            coarse_stride(radius(opts.search_x), radius(opts.search_y), effective_block(opts)),
        ),
    ensures
        block_vector(r, t, opts, bx, by).cost <= block_search(r, t, opts, bx, by).cost(dx, dy),
{
    lemma_block_outcome(r, t, opts, bx, by, dx, dy);
}

/// The vector reported for a block, in either mode, is a genuine match:
/// its displacement lies in the search window, the displaced block lies
/// inside the target, the reported cost is the SAD there and no larger
/// than the SAD at no displacement, and the block counts as matched
/// exactly when that cost is within the threshold.
pub proof fn law_vector_is_genuine(r: ImageView, t: ImageView, opts: BlockMatchOptions, bx: int, by: int)
    requires
        r.wf(),
        t.wf(),
        diff_supported(r, t, opts),
        0 <= bx < grid_cols(r, t, opts),
        0 <= by < grid_rows(r, t, opts),
    ensures
        ({
            let v = block_vector(r, t, opts, bx, by);
            let b = effective_block(opts);
            &&& abs_int(v.dx as int) <= radius(opts.search_x)
            &&& abs_int(v.dy as int) <= radius(opts.search_y)
            &&& block_fits(t, bx * b + v.dx, by * b + v.dy, b)
            &&& v.cost == block_sad(r, t, bx * b, by * b, bx * b + v.dx, by * b + v.dy, b)
            &&& v.cost <= block_search(r, t, opts, bx, by).cost(0, 0)
            &&& v.matched == (v.cost <= b * b * 3 * opts.threshold)
        }),
{
    lemma_block_outcome(r, t, opts, bx, by, 0, 0);
    lemma_block_setup(r, t, opts, bx, by);
}

proof fn lemma_distinct_min(search: BlockSearch, cands: Seq<(int, int)>, bx: int, by: int, acc: int)
    requires
        search_ok(search),
        0 <= acc <= u64::MAX,
    ensures
        0 <= distinct_min(search, cands, bx, by, acc) <= acc,
        forall|k: int|
            0 <= k < cands.len() && far_apart(search.size, cands[k].0, cands[k].1, bx, by) ==> distinct_min(
                search,
                cands,
                bx,
                by,
                acc,
            ) <= search.cost(#[trigger] cands[k].0, cands[k].1),
        distinct_min(search, cands, bx, by, acc) == acc || exists|k: int|
            0 <= k < cands.len() && far_apart(search.size, cands[k].0, cands[k].1, bx, by) && search.cost(
                #[trigger] cands[k].0,
                cands[k].1,
            ) == distinct_min(search, cands, bx, by, acc),
    decreases cands.len(),
{
    if cands.len() > 0 {
        let c = cands[0];
        let cost = search.cost(c.0, c.1);
        lemma_cost_range(search, c.0, c.1);
        let acc2 = if far_apart(search.size, c.0, c.1, bx, by) && cost < acc { cost } else { acc };
        let rest = cands.drop_first();
        lemma_distinct_min(search, rest, bx, by, acc2);
        let m = distinct_min(search, cands, bx, by, acc);
        assert forall|k: int| 0 <= k < cands.len() && far_apart(search.size, cands[k].0, cands[k].1, bx, by) implies m
            <= search.cost(#[trigger] cands[k].0, cands[k].1) by {
            if k > 0 {
                assert(rest[k - 1] == cands[k]);
            }
        }
        if m != acc {
            if m == acc2 {
                assert(search.cost(cands[0].0, cands[0].1) == m);
            } else {
                let j = choose|j: int|
                    0 <= j < rest.len() && far_apart(search.size, rest[j].0, rest[j].1, bx, by) && search.cost(
                        #[trigger] rest[j].0,
                        rest[j].1,
                    ) == m;
                assert(rest[j] == cands[j + 1]);
                assert(search.cost(cands[j + 1].0, cands[j + 1].1) == m);
            }
        }
    }
}

/// The runner-up reported for a block, in either mode, is the lowest SAD
/// among the displacements the search evaluated ([`runner_candidates`]:
/// the uniform scan of the window, then in hierarchical mode the
/// refinement probes) that lie farther than the block size from the
/// reported displacement: none of them does better (in particular no
/// displacement of the uniform scan at stride [`scan_step`]), it is the SAD
/// at one of them, inside the window, unless it is `u64::MAX`, and it is
/// never below the reported cost. It is `u64::MAX` only when a perfect
/// match ended the search without confidence being asked for, or when no
/// such displacement has a comparable block.
pub proof fn law_runner_up_is_best_distinct(
    r: ImageView,
    t: ImageView,
    opts: BlockMatchOptions,
    bx: int,
    by: int,
    dx: int,
    dy: int,
)
    requires
        r.wf(),
        t.wf(),
        diff_supported(r, t, opts),
        0 <= bx < grid_cols(r, t, opts),
        0 <= by < grid_rows(r, t, opts),
    ensures
        ({
            let v = block_vector(r, t, opts, bx, by);
            let search = block_search(r, t, opts, bx, by);
            let sx = radius(opts.search_x);
            let sy = radius(opts.search_y);
            let cands = runner_candidates(search, opts);
            let reported = opts.compute_confidence || v.cost != 0;
            &&& !reported ==> v.second_cost == u64::MAX
            &&& reported ==> forall|k: int|
                0 <= k < cands.len() && far_apart(search.size, cands[k].0, cands[k].1, v.dx as int, v.dy as int)
                    ==> v.second_cost <= search.cost(#[trigger] cands[k].0, cands[k].1)
            &&& reported && scanned(dx, dy, sx, sy, scan_step(opts)) && far_apart(search.size, dx, dy, v.dx as int, v.dy as int)
                ==> v.second_cost <= search.cost(dx, dy)
            &&& v.second_cost != u64::MAX ==> exists|k: int|
                0 <= k < cands.len() && abs_int(cands[k].0) <= sx && abs_int(cands[k].1) <= sy && far_apart(
                    search.size,
                    cands[k].0,
                    cands[k].1,
                    v.dx as int,
                    v.dy as int,
                ) && #[trigger] search.cost(cands[k].0, cands[k].1) == v.second_cost
            &&& v.cost <= v.second_cost
        }),
{
    let v = block_vector(r, t, opts, bx, by);
    let search = block_search(r, t, opts, bx, by);
    let sx = radius(opts.search_x);
    let sy = radius(opts.search_y);
    let step = scan_step(opts);
    let cands = runner_candidates(search, opts);
    let scan = scan_candidates(sx, sy, step);
    lemma_block_outcome(r, t, opts, bx, by, dx, dy);
    lemma_block_setup(r, t, opts, bx, by);
    lemma_runner_candidates(search, opts);
    let s = block_outcome(r, t, opts, bx, by);
    assert(step > 0);
    lemma_distinct_min(search, cands, s.best_dx, s.best_dy, u64::MAX as int);
    let m = distinct_min(search, cands, s.best_dx, s.best_dy, u64::MAX as int);
    let reported = opts.compute_confidence || v.cost != 0;
    assert(v.dx as int == s.best_dx && v.dy as int == s.best_dy && v.cost as int == s.best_cost);
    assert(forall|j: int| 0 <= j < cands.len() ==> s.best_cost <= search.cost(#[trigger] cands[j].0, cands[j].1));
    if reported {
        assert(v.second_cost == m);
        if scanned(dx, dy, sx, sy, step) && far_apart(search.size, dx, dy, v.dx as int, v.dy as int) {
            let idx = if dx == 0 && dy == 0 {
                assert(scan[0] == (0int, 0int));
                0
            } else {
                lemma_sampled_in_window(dx, dy, sx, sy, step);
                let rows = window_rows(-sy, sy, sx, step);
                let k = choose|k: int| 0 <= k < rows.len() && rows[k] == (dx, dy);
                assert(scan[k + 1] == rows[k]);
                k + 1
            };
            assert(cands[idx] == scan[idx]);
            assert(0 <= idx < cands.len() && cands[idx].0 == dx && cands[idx].1 == dy);
            assert(far_apart(search.size, cands[idx].0, cands[idx].1, s.best_dx, s.best_dy));
            assert(m <= search.cost(cands[idx].0, cands[idx].1));
        }
        if m != u64::MAX {
            let k = choose|k: int|
                0 <= k < cands.len() && far_apart(search.size, cands[k].0, cands[k].1, s.best_dx, s.best_dy)
                    && search.cost(#[trigger] cands[k].0, cands[k].1) == m;
            assert(abs_int(cands[k].0) <= sx && abs_int(cands[k].1) <= sy);
            assert(s.best_cost <= search.cost(cands[k].0, cands[k].1));
            assert(v.cost <= v.second_cost);
        }
    }
}

proof fn lemma_visit_all_first(search: BlockSearch, s0: SearchState, cands: Seq<(int, int)>)
    ensures
        ({
            let s = visit_all(search, s0, cands);
            &&& s.best_cost <= s0.best_cost
            &&& s == s0 || (s.best_cost < s0.best_cost && exists|k: int|
                0 <= k < cands.len() && #[trigger] cands[k] == (s.best_dx, s.best_dy) && search.cost(cands[k].0, cands[k].1)
                    == s.best_cost && forall|j: int| 0 <= j < k ==> search.cost(#[trigger] cands[j].0, cands[j].1) > s.best_cost)
        }),
    decreases cands.len(),
{
    if cands.len() > 0 {
        let s1 = visit(search, s0, cands[0].0, cands[0].1);
        let rest = cands.drop_first();
        lemma_visit_all_first(search, s1, rest);
        let s = visit_all(search, s0, cands);
        if s != s1 {
            let k = choose|k: int|
                0 <= k < rest.len() && #[trigger] rest[k] == (s.best_dx, s.best_dy) && search.cost(rest[k].0, rest[k].1)
                    == s.best_cost && forall|j: int| 0 <= j < k ==> search.cost(#[trigger] rest[j].0, rest[j].1) > s.best_cost;
            assert(cands[k + 1] == rest[k]);
            assert forall|j: int| 0 <= j < k + 1 implies search.cost(#[trigger] cands[j].0, cands[j].1) > s.best_cost by {
                if j > 0 {
                    assert(cands[j] == rest[j - 1]);
                }
            }
        } else if s1 != s0 {
            assert(cands[0] == (s.best_dx, s.best_dy));
        }
    }
}

/// Over any sequence of candidates, the search keeps the first candidate
/// of lowest cost: its cost is no larger than any candidate's, and every
/// candidate before it costs strictly more. A best cost of `u64::MAX`
/// means that no candidate had a comparable block.
pub proof fn law_best_is_first_minimum(search: BlockSearch, cands: Seq<(int, int)>)
    requires
        search_ok(search),
    ensures
        ({
            let s = visit_all(search, initial_state(), cands);
            &&& 0 <= s.best_cost <= u64::MAX
            &&& forall|k: int| 0 <= k < cands.len() ==> s.best_cost <= search.cost(#[trigger] cands[k].0, cands[k].1)
            &&& s.best_cost < u64::MAX ==> exists|k: int|
                0 <= k < cands.len() && #[trigger] cands[k] == (s.best_dx, s.best_dy) && search.cost(cands[k].0, cands[k].1)
                    == s.best_cost && forall|j: int| 0 <= j < k ==> search.cost(#[trigger] cands[j].0, cands[j].1) > s.best_cost
        }),
{
    lemma_visit_all_genuine(search, initial_state(), cands);
    lemma_visit_all_first(search, initial_state(), cands);
}

/// The full search is the scan of its candidates in order: no
/// displacement, then the sampled window row by row.
pub proof fn law_full_search_is_a_scan(search: BlockSearch, sx: int, sy: int, step: int)
    ensures
        full_search(search, sx, sy, step) == visit_all(search, initial_state(), scan_candidates(sx, sy, step)),
{
    assert(scan_candidates(sx, sy, step).drop_first() =~= window_rows(-sy, sy, sx, step));
}

proof fn lemma_row_sad_self(a: ImageView, x: int, y: int, n: int)
    ensures
        row_sad(a, a, x, y, x, y, n) == 0,
    decreases n,
{
    if n > 0 {
        lemma_row_sad_self(a, x, y, n - 1);
    }
}

proof fn lemma_rows_sad_self(a: ImageView, x: int, y: int, b: int, k: int)
    ensures
        rows_sad(a, a, x, y, x, y, b, k) == 0,
    decreases k,
{
    if k > 0 {
        lemma_rows_sad_self(a, x, y, b, k - 1);
        lemma_row_sad_self(a, x, y + k - 1, b);
    }
}

/// Comparing an image with itself, every block, in either mode, is
/// matched with cost 0 at no displacement.
pub proof fn law_identical_images_match(a: ImageView, opts: BlockMatchOptions, bx: int, by: int)
    requires
        a.wf(),
        diff_supported(a, a, opts),
        0 <= bx < grid_cols(a, a, opts),
        0 <= by < grid_rows(a, a, opts),
    ensures
        block_vector(a, a, opts, bx, by).dx == 0,
        block_vector(a, a, opts, bx, by).dy == 0,
        block_vector(a, a, opts, bx, by).cost == 0,
        block_vector(a, a, opts, bx, by).matched,
{
    let search = block_search(a, a, opts, bx, by);
    let sx = radius(opts.search_x);
    let sy = radius(opts.search_y);
    let b = effective_block(opts);
    lemma_block_setup(a, a, opts, bx, by);
    lemma_rows_sad_self(a, bx * b, by * b, b, b);
    let s0 = start_state(search);
    assert(s0.best_cost == 0 && s0.best_dx == 0 && s0.best_dy == 0);
    assert(0 <= b * b * 3 * opts.threshold) by (nonlinear_arith)
        requires b >= 1;
    match opts.mode {
        SearchMode::Full => {
            lemma_visit_all_keeps_zero(search, s0, window_rows(-sy, sy, sx, effective_step(opts)));
        },
        SearchMode::Hierarchical => {
            let step = coarse_stride(sx, sy, search.size);
            let rows = window_rows(-sy, sy, sx, step);
            lemma_visit_all_keeps_zero(search, s0, rows);
            lemma_refine_keeps_zero(search, visit_all(search, s0, rows), sx, sy, if step / 2 < 1 { 1 } else { step / 2 });
        },
    }
}

// ----- laws of clustering and smoothing -----

proof fn lemma_cell_in_range(cols: int, rows: int, x: int, y: int)
    requires
        0 <= x < cols,
        0 <= y < rows,
    ensures
        0 <= y * cols + x < cols * rows,
{
    assert(0 <= y * cols + x < cols * rows) by (nonlinear_arith)
        requires 0 <= x < cols, 0 <= y < rows;
}

proof fn lemma_cell_of_index(cols: int, rows: int, i: int)
    requires
        cols >= 0,
        rows >= 0,
        0 <= i < cols * rows,
    ensures
        cols > 0,
        0 <= i % cols < cols,
        0 <= i / cols < rows,
        i == (i / cols) * cols + i % cols,
{
    assert(cols > 0) by (nonlinear_arith)
        requires 0 <= i < cols * rows, rows >= 0, cols >= 0;
    vstd::arithmetic::div_mod::lemma_fundamental_div_mod(i, cols);
    vstd::arithmetic::div_mod::lemma_mod_bound(i, cols);
    assert(0 <= i / cols < rows) by (nonlinear_arith)
        requires i == cols * (i / cols) + i % cols, 0 <= i % cols < cols, 0 <= i < cols * rows, cols > 0;
    assert((i / cols) * cols == cols * (i / cols)) by (nonlinear_arith);
}

proof fn lemma_regions_from_none(d: Seq<bool>, u: Seq<bool>, cols: int, rows: int, bs: int, k: int, x: int, y: int)
    requires
        0 <= x,
        0 <= y,
        forall|c: (int, int)| in_grid(cols, rows, c) ==> !#[trigger] mask_at(d, cols, c),
    ensures
        regions_from(d, u, cols, rows, bs, k, x, y).len() == 0,
    decreases rows - y, cols - x,
{
    if y >= rows || cols <= 0 {
    } else if x >= cols {
        lemma_regions_from_none(d, u, cols, rows, bs, k, 0, y + 1);
    } else {
        lemma_regions_from_none(d, u, cols, rows, bs, k, x + 1, y);
        assert(!mask_at(d, cols, (x, y)));
        assert(!is_leader(d, cols, rows, (x, y)));
    }
}

/// When every block is matched there is no region, whatever the merge gap
/// and the minimum size.
pub proof fn law_all_matched_no_regions(
    vs: Seq<MotionVector>,
    cols: int,
    rows: int,
    bs: int,
    merge_gap: u32,
    min_blocks: u32,
)
    requires
        cols >= 0,
        rows >= 0,
        vs.len() == cols * rows,
        forall|i: int| 0 <= i < vs.len() ==> (#[trigger] vs[i]).matched,
    ensures
        regions_of(vs, cols, rows, bs, merge_gap, min_blocks).len() == 0,
{
    let u = unmatched_flags(vs);
    let d = halo_flags(vs, cols, rows, merge_gap);
    assert forall|c: (int, int)| in_grid(cols, rows, c) implies !#[trigger] mask_at(d, cols, c) by {
        lemma_cell_in_range(cols, rows, c.0, c.1);
        let i = cell_index(cols, c);
        lemma_cell_of_index(cols, rows, i);
        if dilated_at(u, cols, rows, gap_radius(merge_gap), (i % cols, i / cols)) {
            let w = choose|w: (int, int)| in_grid(cols, rows, w) && #[trigger] mask_at(u, cols, w) && crate::clustering::near(
                gap_radius(merge_gap),
                w,
                (i % cols, i / cols),
            );
            lemma_cell_in_range(cols, rows, w.0, w.1);
            assert(vs[cell_index(cols, w)].matched);
        }
    }
    let k = if min_blocks == 0 { 1 } else { min_blocks as int };
    lemma_regions_from_none(d, u, cols, rows, bs, k, 0, 0);
    let found = regions_from(d, u, cols, rows, bs, k, 0, 0);
    assert(found =~= Seq::<crate::block_match::Region>::empty());
}

/// The majority filter keeps a fully matched grid fully matched.
pub proof fn law_smoothing_keeps_full_match(vs: Seq<MotionVector>, cols: int, rows: int)
    requires
        cols >= 0,
        rows >= 0,
        vs.len() == cols * rows,
        forall|i: int| 0 <= i < vs.len() ==> (#[trigger] vs[i]).matched,
    ensures
        forall|i: int| 0 <= i < vs.len() ==> (#[trigger] smoothed(vs, cols, rows)[i]).matched,
{
    let m = matched_flags(vs);
    assert forall|p: int, q: int| #[trigger] flag_at(m, cols, rows, p, q) == inside_at(cols, rows, p, q) by {
        if 0 <= p < cols && 0 <= q < rows {
            lemma_cell_in_range(cols, rows, p, q);
        }
    }
    assert forall|i: int| 0 <= i < vs.len() implies (#[trigger] smoothed(vs, cols, rows)[i]).matched by {
        lemma_cell_of_index(cols, rows, i);
        let x = i % cols;
        let y = i / cols;
        assert(inside_at(cols, rows, x, y) == 1);
        assert(flag_at(m, cols, rows, x - 1, y - 1) == inside_at(cols, rows, x - 1, y - 1));
        assert(flag_at(m, cols, rows, x, y - 1) == inside_at(cols, rows, x, y - 1));
        assert(flag_at(m, cols, rows, x + 1, y - 1) == inside_at(cols, rows, x + 1, y - 1));
        assert(flag_at(m, cols, rows, x - 1, y) == inside_at(cols, rows, x - 1, y));
        assert(flag_at(m, cols, rows, x, y) == inside_at(cols, rows, x, y));
        assert(flag_at(m, cols, rows, x + 1, y) == inside_at(cols, rows, x + 1, y));
        assert(flag_at(m, cols, rows, x - 1, y + 1) == inside_at(cols, rows, x - 1, y + 1));
        assert(flag_at(m, cols, rows, x, y + 1) == inside_at(cols, rows, x, y + 1));
        assert(flag_at(m, cols, rows, x + 1, y + 1) == inside_at(cols, rows, x + 1, y + 1));
    }
}

/// Comparing an image with itself yields no region in either direction,
/// whatever the options, smoothing included: two identical images pass.
pub proof fn law_identical_images_pass(a: ImageView, opts: PngDiffOptions)
    requires
        a.wf(),
        png_supported(a, a, opts),
    ensures
        png_regions(a, a, opts).len() == 0,
{
    let m = png_match_options(opts);
    let cols = grid_cols(a, a, m);
    let rows = grid_rows(a, a, m);
    let vs = expected_vectors(a, a, m);
    assert(cols >= 0 && rows >= 0) by {
        vstd::arithmetic::div_mod::lemma_div_pos_is_pos(diff_width(a, a), effective_block(m));
        vstd::arithmetic::div_mod::lemma_div_pos_is_pos(diff_height(a, a), effective_block(m));
    }
    assert(cols * rows >= 0) by (nonlinear_arith)
        requires cols >= 0, rows >= 0;
    assert forall|i: int| 0 <= i < vs.len() implies (#[trigger] vs[i]).matched by {
        lemma_cell_of_index(cols, rows, i);
        law_identical_images_match(a, m, i % cols, i / cols);
    }
    let pv = png_vectors(a, a, opts);
    if opts.smooth {
        law_smoothing_keeps_full_match(vs, cols, rows);
    }
    assert forall|i: int| 0 <= i < pv.len() implies (#[trigger] pv[i]).matched by {
        if opts.smooth {
            assert(smoothed(vs, cols, rows)[i].matched);
        } else {
            assert(vs[i].matched);
        }
    }
    law_all_matched_no_regions(pv, cols, rows, effective_block(m), opts.merge_gap, opts.min_blocks);
}

// ----- the order of regions -----

/// No region comes after a later one: sorted by top edge, then left edge.
pub open spec fn sorted_by_corner(s: Seq<Region>) -> bool {
    forall|i: int, j: int| 0 <= i < j < s.len() ==> #[trigger] corner_le(s[i], s[j])
}

proof fn lemma_insert_sorted(s: Seq<Region>, r: Region)
    requires
        sorted_by_corner(s),
    ensures
        sorted_by_corner(insert_by_corner(s, r)),
    decreases s.len(),
{
    if s.len() == 0 {
    } else if corner_le(s.last(), r) {
        let t = s.push(r);
        assert forall|i: int, j: int| 0 <= i < j < t.len() implies #[trigger] corner_le(t[i], t[j]) by {
            if j == s.len() {
                if i < s.len() - 1 {
                    assert(corner_le(s[i], s[s.len() - 1]));
                }
            } else {
                assert(corner_le(s[i], s[j]));
            }
        }
    } else {
        let d = s.drop_last();
        let last = s.last();
        assert forall|i: int, j: int| 0 <= i < j < d.len() implies #[trigger] corner_le(d[i], d[j]) by {
            assert(corner_le(s[i], s[j]));
        }
        lemma_insert_sorted(d, r);
        let ins = insert_by_corner(d, r);
        assert forall|i: int| 0 <= i < d.len() implies (|x: Region| corner_le(x, last))(#[trigger] d[i]) by {
            assert(corner_le(s[i], s[s.len() - 1]));
        }
        lemma_insert_keeps(d, r, |x: Region| corner_le(x, last));
        let t = ins.push(last);
        assert forall|i: int, j: int| 0 <= i < j < t.len() implies #[trigger] corner_le(t[i], t[j]) by {
            if j == ins.len() {
                assert((|x: Region| corner_le(x, last))(ins[i]));
            } else {
                assert(corner_le(ins[i], ins[j]));
            }
        }
    }
}

/// The regions come sorted by top edge, then by left edge.
pub proof fn law_regions_sorted(
    vs: Seq<MotionVector>,
    cols: int,
    rows: int,
    bs: int,
    merge_gap: u32,
    min_blocks: u32,
)
    ensures
        sorted_by_corner(regions_of(vs, cols, rows, bs, merge_gap, min_blocks)),
{
    let k = if min_blocks == 0 { 1 } else { min_blocks as int };
    lemma_sort_sorted(regions_from(halo_flags(vs, cols, rows, merge_gap), unmatched_flags(vs), cols, rows, bs, k, 0, 0));
}

proof fn lemma_sort_sorted(s: Seq<Region>)
    ensures
        sorted_by_corner(sort_by_corner(s)),
    decreases s.len(),
{
    if s.len() > 0 {
        lemma_sort_sorted(s.drop_last());
        lemma_insert_sorted(sort_by_corner(s.drop_last()), s.last());
    }
}

proof fn lemma_insert_permutes(s: Seq<Region>, r: Region)
    ensures
        insert_by_corner(s, r).to_multiset() == s.to_multiset().insert(r),
    decreases s.len(),
{
    broadcast use vstd::seq_lib::group_to_multiset_ensures;

    if s.len() == 0 {
        assert(seq![r] == s.push(r));
    } else if !corner_le(s.last(), r) {
        let d = s.drop_last();
        lemma_insert_permutes(d, r);
        assert(s == d.push(s.last()));
        assert(insert_by_corner(s, r).to_multiset() =~= s.to_multiset().insert(r));
    }
}

/// Sorting the regions neither loses nor adds one: the sorted sequence
/// holds the same regions, each as often.
pub proof fn law_sorting_keeps_regions(s: Seq<Region>)
    ensures
        sort_by_corner(s).to_multiset() == s.to_multiset(),
    decreases s.len(),
{
    broadcast use vstd::seq_lib::group_to_multiset_ensures;

    if s.len() > 0 {
        let d = s.drop_last();
        law_sorting_keeps_regions(d);
        lemma_insert_permutes(sort_by_corner(d), s.last());
        assert(s == d.push(s.last()));
    }
}

// ----- the pyramid's refinement -----

proof fn lemma_improve_all_facts(search: BlockSearch, s: (int, int, int), pdx: int, pdy: int, cands: Seq<(int, int)>)
    requires
        s.0 == search.cost(s.1, s.2),
    ensures
        improve_all(search, s, pdx, pdy, cands).0 == search.cost(
            improve_all(search, s, pdx, pdy, cands).1,
            improve_all(search, s, pdx, pdy, cands).2,
        ),
        improve_all(search, s, pdx, pdy, cands).0 <= s.0,
        forall|k: int|
            0 <= k < cands.len() ==> improve_all(search, s, pdx, pdy, cands).0 <= search.cost(
                pdx + (#[trigger] cands[k]).0,
                pdy + cands[k].1,
            ),
    decreases cands.len(),
{
    if cands.len() > 0 {
        let s1 = improve(search, s, pdx + cands[0].0, pdy + cands[0].1);
        lemma_improve_all_facts(search, s1, pdx, pdy, cands.drop_first());
        assert forall|k: int| 0 <= k < cands.len() implies improve_all(search, s, pdx, pdy, cands).0 <= search.cost(
            pdx + (#[trigger] cands[k]).0,
            pdy + cands[k].1,
        ) by {
            if k > 0 {
                assert(cands.drop_first()[k - 1] == cands[k]);
            }
        }
    }
}

/// The refinement around a predicted displacement `(pdx, pdy)` ends at a
/// displacement whose cost is the SAD there and no larger than the SAD at
/// the prediction or at any displacement within `radius` of it.
pub proof fn law_refinement_is_optimal(search: BlockSearch, pdx: int, pdy: int, radius: int, i: int, j: int)
    requires
        abs_int(i) <= radius,
        abs_int(j) <= radius,
    ensures
        refine_outcome(search, pdx, pdy, radius).0 == search.cost(
            refine_outcome(search, pdx, pdy, radius).1,
            refine_outcome(search, pdx, pdy, radius).2,
        ),
        refine_outcome(search, pdx, pdy, radius).0 <= search.cost(pdx + i, pdy + j),
{
    let cands = window_rows(-radius, radius, radius, 1);
    let s0 = (search.cost(pdx, pdy), pdx, pdy);
    lemma_improve_all_facts(search, s0, pdx, pdy, cands);
    if !(i == 0 && j == 0) {
        vstd::arithmetic::div_mod::lemma_fundamental_div_mod(i + radius, 1);
        vstd::arithmetic::div_mod::lemma_mod_bound(i + radius, 1);
        vstd::arithmetic::div_mod::lemma_fundamental_div_mod(j + radius, 1);
        vstd::arithmetic::div_mod::lemma_mod_bound(j + radius, 1);
        lemma_sampled_in_window(i, j, radius, radius, 1);
        let k = choose|k: int| 0 <= k < cands.len() && cands[k] == (i, j);
        assert(cands[k].0 == i && cands[k].1 == j);
    }
}

/// In the pyramid diff the cost of each block is no larger than the SAD at
/// the displacement predicted by the coarse pass, or at any displacement
/// within the refinement radius of it.
pub proof fn law_pyramid_refines_prediction(
    r: ImageView,
    t: ImageView,
    opts: BlockMatchOptions,
    scale: u32,
    refine_radius: i32,
    bx: int,
    by: int,
    i: int,
    j: int,
)
    requires
        r.wf(),
        t.wf(),
        pyramid_supported(r, t, opts, scale, refine_radius),
        0 <= bx < grid_cols(r, t, opts),
        0 <= by < grid_rows(r, t, opts),
        abs_int(i) <= refine_radius,
        abs_int(j) <= refine_radius,
    ensures
        ({
            let p = pyramid_prediction(r, t, opts, scale as int, bx, by);
            pyramid_vector(r, t, opts, scale as int, refine_radius as int, bx, by).cost <= block_search(
                r,
                t,
                opts,
                bx,
                by,
            ).cost(p.0 + i, p.1 + j)
        }),
{
    let p = pyramid_prediction(r, t, opts, scale as int, bx, by);
    let search = block_search(r, t, opts, bx, by);
    lemma_block_setup(r, t, opts, bx, by);
    law_refinement_is_optimal(search, p.0, p.1, refine_radius as int, i, j);
    let o = refine_outcome(search, p.0, p.1, refine_radius as int);
    lemma_cost_range(search, o.1, o.2);
}

// ----- confidence -----

/// The confidence of a vector is a fraction between 0 and 1 with a
/// positive denominator.
pub proof fn law_confidence_in_unit_interval(v: MotionVector)
    ensures
        confidence_spec(v).1 > 0,
        confidence_spec(v).0 <= confidence_spec(v).1,
{
}

// ----- lines -----

proof fn lemma_walk_ends(x0: int, y0: int, x1: int, y1: int, a: int, b: int, err: int, fuel: nat)
    requires
        0 <= a <= abs_val(x1 - x0),
        0 <= b <= abs_val(y1 - y0),
        err == abs_val(x1 - x0) * (b + 1) - abs_val(y1 - y0) * (a + 1),
        fuel >= (abs_val(x1 - x0) - a) + (abs_val(y1 - y0) - b) + 1,
    ensures
        ({
            let dx = abs_val(x1 - x0);
            let dy = -abs_val(y1 - y0);
            let sx = if x0 < x1 { 1int } else { -1int };
            let sy = if y0 < y1 { 1int } else { -1int };
            let w = line_walk(x0 + sx * a, y0 + sy * b, err, x1, y1, dx, dy, sx, sy, fuel);
            w.len() > 0 && w.last() == (x1, y1)
        }),
    decreases (abs_val(x1 - x0) - a) + (abs_val(y1 - y0) - b),
{
    let dx = abs_val(x1 - x0);
    let ady = abs_val(y1 - y0);
    let dy = -ady;
    let sx = if x0 < x1 { 1int } else { -1int };
    let sy = if y0 < y1 { 1int } else { -1int };
    let x = x0 + sx * a;
    let y = y0 + sy * b;
    assert(a == dx ==> x == x1) by (nonlinear_arith)
        requires x == x0 + sx * a, (x0 < x1 ==> sx == 1 && dx == x1 - x0), (x0 >= x1 ==> sx == -1 && dx == x0 - x1);
    assert(b == ady ==> y == y1) by (nonlinear_arith)
        requires y == y0 + sy * b, (y0 < y1 ==> sy == 1 && ady == y1 - y0), (y0 >= y1 ==> sy == -1 && ady == y0 - y1);
    if x == x1 && y == y1 {
        let w = line_walk(x, y, err, x1, y1, dx, dy, sx, sy, fuel);
        assert(w == seq![(x, y)]);
    } else {
        let e2 = 2 * err;
        if a == dx {
            assert(ady * (a + 1) == ady * dx + ady) by (nonlinear_arith)
                requires a == dx;
            assert(ady * dx == dx * ady) by (nonlinear_arith);
            assert(dx * (b + 1) <= dx * ady) by (nonlinear_arith)
                requires b + 1 <= ady, dx >= 0;
            assert(e2 < dy);
        }
        if b == ady {
            assert(ady * (a + 1) <= ady * dx) by (nonlinear_arith)
                requires a + 1 <= dx, ady >= 0;
            assert(dx * (b + 1) == dx * ady + dx) by (nonlinear_arith)
                requires b == ady;
            assert(ady * dx == dx * ady) by (nonlinear_arith);
            assert(e2 > dx);
        }
        let a2 = if e2 >= dy { a + 1 } else { a };
        let b2 = if e2 <= dx { b + 1 } else { b };
        let err2 = if e2 >= dy { err + dy } else { err };
        let err3 = if e2 <= dx { err2 + dx } else { err2 };
        assert(sx * a2 == sx * a + (if a2 == a { 0 } else { sx })) by (nonlinear_arith)
            requires a2 == a || a2 == a + 1;
        assert(sy * b2 == sy * b + (if b2 == b { 0 } else { sy })) by (nonlinear_arith)
            requires b2 == b || b2 == b + 1;
        assert(dx * (b2 + 1) == dx * (b + 1) + (if b2 == b { 0 } else { dx })) by (nonlinear_arith)
            requires b2 == b || b2 == b + 1;
        assert(ady * (a2 + 1) == ady * (a + 1) + (if a2 == a { 0 } else { ady })) by (nonlinear_arith)
            requires a2 == a || a2 == a + 1;
        let rest = line_walk(x0 + sx * a2, y0 + sy * b2, err3, x1, y1, dx, dy, sx, sy, (fuel - 1) as nat);
        lemma_walk_ends(x0, y0, x1, y1, a2, b2, err3, (fuel - 1) as nat);
        let w = line_walk(x, y, err, x1, y1, dx, dy, sx, sy, fuel);
        assert(w == seq![(x, y)] + rest);
        assert(w.last() == rest.last());
    }
}

/// A drawn line starts at its first end point and ends at its second.
pub proof fn law_line_joins_ends(x0: int, y0: int, x1: int, y1: int)
    ensures
        line_points(x0, y0, x1, y1).len() > 0,
        line_points(x0, y0, x1, y1)[0] == (x0, y0),
        line_points(x0, y0, x1, y1).last() == (x1, y1),
{
    let dx = abs_val(x1 - x0);
    let ady = abs_val(y1 - y0);
    assert(dx * 1 - ady * 1 == dx - ady);
    lemma_walk_ends(x0, y0, x1, y1, 0, 0, dx - ady, (dx + ady + 1) as nat);
    let sx = if x0 < x1 { 1int } else { -1int };
    let sy = if y0 < y1 { 1int } else { -1int };
    assert(sx * 0 == 0 && sy * 0 == 0);
}

// ----- every unmatched block is covered -----

proof fn lemma_connected_along(d: Seq<bool>, cols: int, rows: int, a: (int, int), q: Seq<(int, int)>)
    requires
        is_path(d, cols, rows, q),
        connected(d, cols, rows, a, q[0]),
    ensures
        connected(d, cols, rows, a, q.last()),
    decreases q.len(),
{
    if q.len() >= 2 {
        let r = q.drop_first();
        assert(is_path(d, cols, rows, r));
        assert(adjacent(q[0], q[1]) && r[0] == q[1]);
        lemma_connected_extend(d, cols, rows, a, q[0], q[1]);
        lemma_connected_along(d, cols, rows, a, r);
        assert(r.last() == q.last());
    }
}

proof fn lemma_connected_trans(d: Seq<bool>, cols: int, rows: int, a: (int, int), b: (int, int), c: (int, int))
    requires
        connected(d, cols, rows, a, b),
        connected(d, cols, rows, b, c),
    ensures
        connected(d, cols, rows, a, c),
{
    let q = choose|q: Seq<(int, int)>| #[trigger] is_path(d, cols, rows, q) && q[0] == b && q.last() == c;
    lemma_connected_along(d, cols, rows, a, q);
}

/// Every set flag is reached from the first cell of its component.
proof fn lemma_leader_exists(d: Seq<bool>, cols: int, rows: int, c: (int, int))
    requires
        in_grid(cols, rows, c),
        mask_at(d, cols, c),
    ensures
        exists|l: (int, int)| #[trigger] is_leader(d, cols, rows, l) && connected(d, cols, rows, l, c),
    decreases cell_index(cols, c),
{
    lemma_connected_refl(d, cols, rows, c);
    if !is_leader(d, cols, rows, c) {
        let c1 = choose|c1: (int, int)| in_grid(cols, rows, c1) && rm_before(c1, c) && #[trigger] connected(d, cols, rows, c1, c);
        lemma_connected_ends(d, cols, rows, c1, c);
        assert(0 <= cell_index(cols, c1) < cell_index(cols, c)) by (nonlinear_arith)
            requires
                0 <= c1.0 < cols,
                0 <= c1.1,
                0 <= c.0 < cols,
                c1.1 < c.1 || (c1.1 == c.1 && c1.0 < c.0),
                cell_index(cols, c1) == c1.1 * cols + c1.0,
                cell_index(cols, c) == c.1 * cols + c.0,
        ;
        lemma_leader_exists(d, cols, rows, c1);
        let l = choose|l: (int, int)| #[trigger] is_leader(d, cols, rows, l) && connected(d, cols, rows, l, c1);
        lemma_connected_trans(d, cols, rows, l, c1, c);
    }
}

/// The cells of a grid form a finite set, and so do its clusters.
proof fn lemma_cluster_finite(d: Seq<bool>, u: Seq<bool>, cols: int, rows: int, start: (int, int))
    requires
        cols >= 0,
        rows >= 0,
    ensures
        cluster(d, u, cols, rows, start).finite(),
{
    let n = cols * rows;
    assert(n >= 0) by (nonlinear_arith)
        requires cols >= 0, rows >= 0, n == cols * rows;
    vstd::set_lib::lemma_int_range(0, n);
    let f = |i: int| (i % cols, i / cols);
    let g = vstd::set_lib::set_int_range(0, n).map(f);
    vstd::set_lib::set_int_range(0, n).lemma_map_finite(f);
    let cl = cluster(d, u, cols, rows, start);
    assert forall|c: (int, int)| #[trigger] cl.contains(c) implies g.contains(c) by {
        lemma_connected_ends(d, cols, rows, start, c);
        lemma_cell_in_range(cols, rows, c.0, c.1);
        let i = c.1 * cols + c.0;
        vstd::arithmetic::div_mod::lemma_fundamental_div_mod_converse(i, cols, c.1, c.0);
        assert(vstd::set_lib::set_int_range(0, n).contains(i));
        assert(f(i) == c);
    }
    vstd::set_lib::lemma_set_subset_finite(g, cl);
}

/// A finite non-empty set of cells has extreme columns and rows.
proof fn lemma_extremes_exist(s: Set<(int, int)>)
    requires
        s.finite(),
        s.len() > 0,
    ensures
        exists|v: int| lowest_col(s, v),
        exists|v: int| highest_col(s, v),
        exists|v: int| lowest_row(s, v),
        exists|v: int| highest_row(s, v),
    decreases s.len(),
{
    let e = s.choose();
    let t = s.remove(e);
    if t.len() == 0 {
        assert forall|c: (int, int)| #[trigger] s.contains(c) implies c == e by {
            if c != e {
                assert(t.contains(c));
            }
        }
        assert(lowest_col(s, e.0));
        assert(highest_col(s, e.0));
        assert(lowest_row(s, e.1));
        assert(highest_row(s, e.1));
    } else {
        lemma_extremes_exist(t);
        let a = choose|v: int| lowest_col(t, v);
        let b = choose|v: int| highest_col(t, v);
        let c = choose|v: int| lowest_row(t, v);
        let h = choose|v: int| highest_row(t, v);
        let wa = choose|w: (int, int)| #[trigger] t.contains(w) && w.0 == a;
        let wb = choose|w: (int, int)| #[trigger] t.contains(w) && w.0 == b;
        let wc = choose|w: (int, int)| #[trigger] t.contains(w) && w.1 == c;
        let wh = choose|w: (int, int)| #[trigger] t.contains(w) && w.1 == h;
        assert forall|w: (int, int)| #[trigger] s.contains(w) implies w == e || t.contains(w) by {
        }
        if e.0 < a {
            assert(lowest_col(s, e.0));
        } else {
            assert(s.contains(wa));
            assert(lowest_col(s, a));
        }
        if e.0 > b {
            assert(highest_col(s, e.0));
        } else {
            assert(s.contains(wb));
            assert(highest_col(s, b));
        }
        if e.1 < c {
            assert(lowest_row(s, e.1));
        } else {
            assert(s.contains(wc));
            assert(lowest_row(s, c));
        }
        if e.1 > h {
            assert(highest_row(s, e.1));
        } else {
            assert(s.contains(wh));
            assert(highest_row(s, h));
        }
    }
}

proof fn lemma_regions_from_has(
    d: Seq<bool>,
    u: Seq<bool>,
    cols: int,
    rows: int,
    bs: int,
    k: int,
    x: int,
    y: int,
    l: (int, int),
)
    requires
        is_leader(d, cols, rows, l),
        cluster(d, u, cols, rows, l).len() >= k,
        0 <= x,
        0 <= y,
        y < l.1 || (y == l.1 && x <= l.0),
    ensures
        regions_from(d, u, cols, rows, bs, k, x, y).contains(cluster_region(cluster(d, u, cols, rows, l), bs)),
    decreases rows - y, cols - x,
{
    let r = cluster_region(cluster(d, u, cols, rows, l), bs);
    if x >= cols {
        lemma_regions_from_has(d, u, cols, rows, bs, k, 0, y + 1, l);
    } else {
        let rest = regions_from(d, u, cols, rows, bs, k, x + 1, y);
        if x == l.0 && y == l.1 {
            assert(regions_from(d, u, cols, rows, bs, k, x, y) == seq![r] + rest);
            assert(regions_from(d, u, cols, rows, bs, k, x, y)[0] == r);
        } else {
            lemma_regions_from_has(d, u, cols, rows, bs, k, x + 1, y, l);
            let j = choose|j: int| 0 <= j < rest.len() && rest[j] == r;
            let cl = cluster(d, u, cols, rows, (x, y));
            if is_leader(d, cols, rows, (x, y)) && cl.len() >= k {
                let here = seq![cluster_region(cl, bs)] + rest;
                assert(here[j + 1] == r);
            }
        }
    }
}

/// Region `r` covers the pixels of block `(col, row)` of side `bs`.
pub open spec fn covers(r: Region, col: int, row: int, bs: int) -> bool {
    &&& r.x <= col * bs
    &&& col * bs + bs <= r.x + r.width
    &&& r.y <= row * bs
    &&& row * bs + bs <= r.y + r.height
}

/// When regions of any size are kept, every unmatched block lies inside
/// the box of some region, whatever the merge gap: clustering loses no
/// unmatched block.
pub proof fn law_unmatched_blocks_are_covered(
    vs: Seq<MotionVector>,
    cols: int,
    rows: int,
    bs: int,
    merge_gap: u32,
    min_blocks: u32,
    i: int,
)
    requires
        cols >= 0,
        rows >= 0,
        bs >= 0,
        cols * bs <= u32::MAX,
        rows * bs <= u32::MAX,
        vs.len() == cols * rows,
        0 <= i < vs.len(),
        !vs[i].matched,
        min_blocks <= 1,
    ensures
        exists|k: int|
            0 <= k < regions_of(vs, cols, rows, bs, merge_gap, min_blocks).len() && covers(
                #[trigger] regions_of(vs, cols, rows, bs, merge_gap, min_blocks)[k],
                i % cols,
                i / cols,
                bs,
            ),
{
    let u = unmatched_flags(vs);
    let d = halo_flags(vs, cols, rows, merge_gap);
    let kmin = if min_blocks == 0 { 1 } else { min_blocks as int };
    lemma_cell_of_index(cols, rows, i);
    let c = (i % cols, i / cols);
    assert(cell_index(cols, c) == i);
    assert(mask_at(u, cols, c));
    assert(near(gap_radius(merge_gap), c, c));
    assert(dilated_at(u, cols, rows, gap_radius(merge_gap), c));
    assert(mask_at(d, cols, c));
    lemma_leader_exists(d, cols, rows, c);
    let l = choose|l: (int, int)| #[trigger] is_leader(d, cols, rows, l) && connected(d, cols, rows, l, c);
    let cl = cluster(d, u, cols, rows, l);
    assert(cl.contains(c));
    lemma_cluster_finite(d, u, cols, rows, l);
    vstd::set::axiom_set_contains_len(cl, c);
    lemma_regions_from_has(d, u, cols, rows, bs, kmin, 0, 0, l);
    let found = regions_from(d, u, cols, rows, bs, kmin, 0, 0);
    let r = cluster_region(cl, bs);
    let sorted = regions_of(vs, cols, rows, bs, merge_gap, min_blocks);
    law_sorting_keeps_regions(found);
    assert(sorted.contains(r)) by {
        broadcast use vstd::seq_lib::group_to_multiset_ensures;

        assert(found.to_multiset().count(r) > 0);
    }
    let k = choose|k: int| 0 <= k < sorted.len() && sorted[k] == r;
    lemma_extremes_exist(cl);
    let x0 = choose|v: int| lowest_col(cl, v);
    let x1 = choose|v: int| highest_col(cl, v);
    let y0 = choose|v: int| lowest_row(cl, v);
    let y1 = choose|v: int| highest_row(cl, v);
    let w0 = choose|w: (int, int)| #[trigger] cl.contains(w) && w.0 == x0;
    let w1 = choose|w: (int, int)| #[trigger] cl.contains(w) && w.0 == x1;
    let w2 = choose|w: (int, int)| #[trigger] cl.contains(w) && w.1 == y0;
    let w3 = choose|w: (int, int)| #[trigger] cl.contains(w) && w.1 == y1;
    lemma_connected_ends(d, cols, rows, l, w0);
    lemma_connected_ends(d, cols, rows, l, w1);
    lemma_connected_ends(d, cols, rows, l, w2);
    lemma_connected_ends(d, cols, rows, l, w3);
    assert(0 <= x0 <= c.0 <= x1 < cols);
    assert(0 <= y0 <= c.1 <= y1 < rows);
    assert(0 <= x0 * bs <= c.0 * bs && c.0 * bs + bs <= x0 * bs + (x1 - x0 + 1) * bs && (x1 - x0 + 1) * bs <= cols * bs)
        by (nonlinear_arith)
        requires 0 <= x0 <= c.0 <= x1 < cols, bs >= 0;
    assert(0 <= y0 * bs <= c.1 * bs && c.1 * bs + bs <= y0 * bs + (y1 - y0 + 1) * bs && (y1 - y0 + 1) * bs <= rows * bs)
        by (nonlinear_arith)
        requires 0 <= y0 <= c.1 <= y1 < rows, bs >= 0;
    assert(x0 * bs <= cols * bs) by (nonlinear_arith)
        requires 0 <= x0 < cols, bs >= 0;
    assert(y0 * bs <= rows * bs) by (nonlinear_arith)
        requires 0 <= y0 < rows, bs >= 0;
    assert(covers(sorted[k], c.0, c.1, bs));
}

// ----- the minimum size only filters -----

proof fn lemma_cluster_len(d: Seq<bool>, u: Seq<bool>, cols: int, rows: int, start: (int, int))
    requires
        cols >= 0,
        rows >= 0,
    ensures
        cluster(d, u, cols, rows, start).finite(),
        cluster(d, u, cols, rows, start).len() <= cols * rows,
{
    let n = cols * rows;
    assert(n >= 0) by (nonlinear_arith)
        requires cols >= 0, rows >= 0, n == cols * rows;
    vstd::set_lib::lemma_int_range(0, n);
    let f = |i: int| (i % cols, i / cols);
    let range = vstd::set_lib::set_int_range(0, n);
    let g = range.map(f);
    vstd::set_lib::lemma_map_size_bound(range, g, f);
    lemma_cluster_finite(d, u, cols, rows, start);
    let cl = cluster(d, u, cols, rows, start);
    assert forall|c: (int, int)| #[trigger] cl.contains(c) implies g.contains(c) by {
        lemma_connected_ends(d, cols, rows, start, c);
        lemma_cell_in_range(cols, rows, c.0, c.1);
        let i = c.1 * cols + c.0;
        vstd::arithmetic::div_mod::lemma_fundamental_div_mod_converse(i, cols, c.1, c.0);
        assert(range.contains(i));
        assert(f(i) == c);
    }
    vstd::set_lib::lemma_len_subset(cl, g);
}

proof fn lemma_regions_from_filter(
    d: Seq<bool>,
    u: Seq<bool>,
    cols: int,
    rows: int,
    bs: int,
    k1: int,
    k2: int,
    x: int,
    y: int,
)
    requires
        cols >= 0,
        rows >= 0,
        cols * rows <= u32::MAX,
        1 <= k1 <= k2,
        0 <= x,
        0 <= y,
    ensures
        regions_from(d, u, cols, rows, bs, k2, x, y) == regions_from(d, u, cols, rows, bs, k1, x, y).filter(
            |r: Region| r.block_count >= k2,
        ),
    decreases rows - y, cols - x,
{
    let p = |r: Region| r.block_count >= k2;
    if y >= rows || cols <= 0 {
    } else if x >= cols {
        lemma_regions_from_filter(d, u, cols, rows, bs, k1, k2, 0, y + 1);
    } else {
        lemma_regions_from_filter(d, u, cols, rows, bs, k1, k2, x + 1, y);
        let rest1 = regions_from(d, u, cols, rows, bs, k1, x + 1, y);
        let cl = cluster(d, u, cols, rows, (x, y));
        lemma_cluster_len(d, u, cols, rows, (x, y));
        if is_leader(d, cols, rows, (x, y)) && cl.len() >= k1 {
            let r = cluster_region(cl, bs);
            assert(r.block_count == cl.len());
            rest1.lemma_filter_prepend(r, p);
            assert(seq![r].filter(p) == (if p(r) { seq![r] } else { Seq::<Region>::empty() })) by {
                reveal_with_fuel(Seq::filter, 2);
                assert(seq![r].drop_last() =~= Seq::<Region>::empty());
            }
        }
    }
}

proof fn lemma_filter_keeps(t: Seq<Region>, p: spec_fn(Region) -> bool, q: spec_fn(Region) -> bool)
    requires
        forall|i: int| 0 <= i < t.len() ==> q(#[trigger] t[i]),
    ensures
        forall|i: int| 0 <= i < t.filter(p).len() ==> q(#[trigger] t.filter(p)[i]),
    decreases t.len(),
{
    reveal(Seq::filter);
    if t.len() > 0 {
        let dl = t.drop_last();
        assert forall|i: int| 0 <= i < dl.len() implies q(#[trigger] dl[i]) by {
            assert(dl[i] == t[i]);
        }
        assert(q(t[t.len() - 1]));
        lemma_filter_keeps(dl, p, q);
        let f = dl.filter(p);
        if p(t.last()) {
            assert forall|i: int| 0 <= i < f.push(t.last()).len() implies q(#[trigger] f.push(t.last())[i]) by {
                if i < f.len() {
                    assert(f.push(t.last())[i] == f[i]);
                }
            }
        }
    }
}

proof fn lemma_filter_insert(t: Seq<Region>, r: Region, p: spec_fn(Region) -> bool)
    requires
        sorted_by_corner(t),
    ensures
        insert_by_corner(t, r).filter(p) == if p(r) {
            insert_by_corner(t.filter(p), r)
        } else {
            t.filter(p)
        },
    decreases t.len(),
{
    reveal(Seq::filter);
    if t.len() == 0 {
        assert(seq![r].drop_last() =~= t);
        assert(insert_by_corner(t, r) == seq![r]);
    } else if corner_le(t.last(), r) {
        let last = t.last();
        assert(t.push(r).drop_last() =~= t);
        let q = |x: Region| corner_le(x, r);
        assert forall|i: int| 0 <= i < t.len() implies q(#[trigger] t[i]) by {
            if i < t.len() - 1 {
                assert(corner_le(t[i], t[t.len() - 1]));
            }
        }
        lemma_filter_keeps(t, p, q);
        let f = t.filter(p);
        if f.len() > 0 {
            assert(q(f[f.len() - 1]));
        } else {
            assert(f.push(r).drop_last() =~= f);
        }
    } else {
        let dl = t.drop_last();
        let last = t.last();
        assert forall|i: int, j: int| 0 <= i < j < dl.len() implies #[trigger] corner_le(dl[i], dl[j]) by {
            assert(corner_le(t[i], t[j]));
        }
        lemma_filter_insert(dl, r, p);
        let ins = insert_by_corner(dl, r);
        assert(ins.push(last).drop_last() =~= ins);
        let fd = dl.filter(p);
        if p(r) && p(last) {
            assert(fd.push(last).drop_last() =~= fd);
            assert(t.filter(p) == fd.push(last));
        }
    }
}

proof fn lemma_sort_filter(s: Seq<Region>, p: spec_fn(Region) -> bool)
    ensures
        sort_by_corner(s.filter(p)) == sort_by_corner(s).filter(p),
    decreases s.len(),
{
    reveal(Seq::filter);
    if s.len() > 0 {
        let dl = s.drop_last();
        let last = s.last();
        lemma_sort_filter(dl, p);
        lemma_sort_sorted(dl);
        lemma_filter_insert(sort_by_corner(dl), last, p);
        let fd = dl.filter(p);
        if p(last) {
            assert(fd.push(last).drop_last() =~= fd);
            assert(fd.push(last).last() == last);
        }
    }
}

/// A larger minimum size only drops regions: the regions kept with
/// `min_blocks = m2` are exactly those kept with a smaller `m1` that hold
/// at least `max(m2, 1)` blocks, in the same order.
pub proof fn law_min_blocks_only_filters(
    vs: Seq<MotionVector>,
    cols: int,
    rows: int,
    bs: int,
    merge_gap: u32,
    m1: u32,
    m2: u32,
)
    requires
        cols >= 0,
        rows >= 0,
        cols * rows <= u32::MAX,
        m1 <= m2,
    ensures
        regions_of(vs, cols, rows, bs, merge_gap, m2) == regions_of(vs, cols, rows, bs, merge_gap, m1).filter(
            |r: Region| r.block_count >= if m2 == 0 { 1 } else { m2 as int },
        ),
{
    let k1 = if m1 == 0 { 1 } else { m1 as int };
    let k2 = if m2 == 0 { 1 } else { m2 as int };
    let d = halo_flags(vs, cols, rows, merge_gap);
    let u = unmatched_flags(vs);
    let p = |r: Region| r.block_count >= k2;
    lemma_regions_from_filter(d, u, cols, rows, bs, k1, k2, 0, 0);
    lemma_sort_filter(regions_from(d, u, cols, rows, bs, k1, 0, 0), p);
}

// ----- a wider merge gap only merges -----

proof fn lemma_path_wider(d1: Seq<bool>, d2: Seq<bool>, cols: int, rows: int, p: Seq<(int, int)>)
    requires
        is_path(d1, cols, rows, p),
        forall|c: (int, int)| in_grid(cols, rows, c) && #[trigger] mask_at(d1, cols, c) ==> mask_at(d2, cols, c),
    ensures
        is_path(d2, cols, rows, p),
    decreases p.len(),
{
    if p.len() >= 2 {
        lemma_path_wider(d1, d2, cols, rows, p.drop_first());
    }
}

proof fn lemma_connected_wider(d1: Seq<bool>, d2: Seq<bool>, cols: int, rows: int, a: (int, int), b: (int, int))
    requires
        connected(d1, cols, rows, a, b),
        forall|c: (int, int)| in_grid(cols, rows, c) && #[trigger] mask_at(d1, cols, c) ==> mask_at(d2, cols, c),
    ensures
        connected(d2, cols, rows, a, b),
{
    let p = choose|p: Seq<(int, int)>| #[trigger] is_path(d1, cols, rows, p) && p[0] == a && p.last() == b;
    lemma_path_wider(d1, d2, cols, rows, p);
}

proof fn lemma_regions_from_member(
    d: Seq<bool>,
    u: Seq<bool>,
    cols: int,
    rows: int,
    bs: int,
    k: int,
    x: int,
    y: int,
    r: Region,
)
    requires
        regions_from(d, u, cols, rows, bs, k, x, y).contains(r),
        0 <= x,
        0 <= y,
    ensures
        exists|l: (int, int)|
            #[trigger] is_leader(d, cols, rows, l) && cluster(d, u, cols, rows, l).len() >= k && r == cluster_region(
                cluster(d, u, cols, rows, l),
                bs,
            ),
    decreases rows - y, cols - x,
{
    if y >= rows || cols <= 0 {
    } else if x >= cols {
        lemma_regions_from_member(d, u, cols, rows, bs, k, 0, y + 1, r);
    } else {
        let rest = regions_from(d, u, cols, rows, bs, k, x + 1, y);
        let cl = cluster(d, u, cols, rows, (x, y));
        if is_leader(d, cols, rows, (x, y)) && cl.len() >= k {
            let all = seq![cluster_region(cl, bs)] + rest;
            let j = choose|j: int| 0 <= j < all.len() && all[j] == r;
            if j > 0 {
                assert(rest[j - 1] == r);
                lemma_regions_from_member(d, u, cols, rows, bs, k, x + 1, y, r);
            } else {
                assert(is_leader(d, cols, rows, (x, y)));
            }
        } else {
            lemma_regions_from_member(d, u, cols, rows, bs, k, x + 1, y, r);
        }
    }
}

/// Region `a` lies inside region `b` and holds no more blocks.
pub open spec fn inside(a: Region, b: Region) -> bool {
    &&& b.x <= a.x
    &&& a.x + a.width <= b.x + b.width
    &&& b.y <= a.y
    &&& a.y + a.height <= b.y + b.height
    &&& a.block_count <= b.block_count
}

/// A wider merge gap never splits a cluster: every region found with gap
/// `g1` lies inside a region found with any gap `g2 >= g1` (same minimum
/// size), which holds at least as many blocks.
pub proof fn law_wider_gap_only_merges(
    vs: Seq<MotionVector>,
    cols: int,
    rows: int,
    bs: int,
    g1: u32,
    g2: u32,
    min_blocks: u32,
    i: int,
)
    requires
        cols >= 0,
        rows >= 0,
        bs >= 0,
        cols * bs <= u32::MAX,
        rows * bs <= u32::MAX,
        cols * rows <= u32::MAX,
        g1 <= g2,
        0 <= i < regions_of(vs, cols, rows, bs, g1, min_blocks).len(),
    ensures
        exists|j: int|
            0 <= j < regions_of(vs, cols, rows, bs, g2, min_blocks).len() && inside(
                regions_of(vs, cols, rows, bs, g1, min_blocks)[i],
                #[trigger] regions_of(vs, cols, rows, bs, g2, min_blocks)[j],
            ),
{
    let k = if min_blocks == 0 { 1 } else { min_blocks as int };
    let u = unmatched_flags(vs);
    let d1 = halo_flags(vs, cols, rows, g1);
    let d2 = halo_flags(vs, cols, rows, g2);
    let found1 = regions_from(d1, u, cols, rows, bs, k, 0, 0);
    let found2 = regions_from(d2, u, cols, rows, bs, k, 0, 0);
    let sorted1 = regions_of(vs, cols, rows, bs, g1, min_blocks);
    let sorted2 = regions_of(vs, cols, rows, bs, g2, min_blocks);
    let r1 = sorted1[i];
    // The region comes from a component of the narrower halo.
    law_sorting_keeps_regions(found1);
    assert(found1.contains(r1)) by {
        broadcast use vstd::seq_lib::group_to_multiset_ensures;

        assert(sorted1.contains(r1));
        assert(sorted1.to_multiset().count(r1) > 0);
    }
    lemma_regions_from_member(d1, u, cols, rows, bs, k, 0, 0, r1);
    let l1 = choose|l: (int, int)|
        #[trigger] is_leader(d1, cols, rows, l) && cluster(d1, u, cols, rows, l).len() >= k && r1 == cluster_region(
            cluster(d1, u, cols, rows, l),
            bs,
        );
    // The narrower halo lies inside the wider one.
    assert forall|c: (int, int)| in_grid(cols, rows, c) && #[trigger] mask_at(d1, cols, c) implies mask_at(d2, cols, c) by {
        lemma_cell_in_range(cols, rows, c.0, c.1);
        let j = cell_index(cols, c);
        lemma_cell_of_index(cols, rows, j);
        let w = choose|w: (int, int)| in_grid(cols, rows, w) && #[trigger] mask_at(u, cols, w) && near(gap_radius(g1), w, (j % cols, j / cols));
        assert(near(gap_radius(g2), w, (j % cols, j / cols)));
        assert(dilated_at(u, cols, rows, gap_radius(g2), (j % cols, j / cols)));
    }
    // Its leader belongs to a component of the wider halo.
    lemma_connected_refl(d1, cols, rows, l1);
    lemma_connected_wider(d1, d2, cols, rows, l1, l1);
    lemma_connected_ends(d2, cols, rows, l1, l1);
    lemma_leader_exists(d2, cols, rows, l1);
    let l2 = choose|l: (int, int)| #[trigger] is_leader(d2, cols, rows, l) && connected(d2, cols, rows, l, l1);
    let cl1 = cluster(d1, u, cols, rows, l1);
    let cl2 = cluster(d2, u, cols, rows, l2);
    assert forall|w: (int, int)| #[trigger] cl1.contains(w) implies cl2.contains(w) by {
        lemma_connected_wider(d1, d2, cols, rows, l1, w);
        lemma_connected_trans(d2, cols, rows, l2, l1, w);
    }
    lemma_cluster_len(d1, u, cols, rows, l1);
    lemma_cluster_len(d2, u, cols, rows, l2);
    vstd::set_lib::lemma_len_subset(cl1, cl2);
    // That component is kept, so its region is found.
    lemma_regions_from_has(d2, u, cols, rows, bs, k, 0, 0, l2);
    let r2 = cluster_region(cl2, bs);
    law_sorting_keeps_regions(found2);
    assert(sorted2.contains(r2)) by {
        broadcast use vstd::seq_lib::group_to_multiset_ensures;

        assert(found2.to_multiset().count(r2) > 0);
    }
    let j = choose|j: int| 0 <= j < sorted2.len() && sorted2[j] == r2;
    // Its box holds the narrower one.
    lemma_extremes_exist(cl1);
    lemma_extremes_exist(cl2);
    let a0 = choose|v: int| lowest_col(cl1, v);
    let a1 = choose|v: int| highest_col(cl1, v);
    let a2 = choose|v: int| lowest_row(cl1, v);
    let a3 = choose|v: int| highest_row(cl1, v);
    let b0 = choose|v: int| lowest_col(cl2, v);
    let b1 = choose|v: int| highest_col(cl2, v);
    let b2 = choose|v: int| lowest_row(cl2, v);
    let b3 = choose|v: int| highest_row(cl2, v);
    let w0 = choose|w: (int, int)| #[trigger] cl1.contains(w) && w.0 == a0;
    let w1 = choose|w: (int, int)| #[trigger] cl1.contains(w) && w.0 == a1;
    let w2 = choose|w: (int, int)| #[trigger] cl1.contains(w) && w.1 == a2;
    let w3 = choose|w: (int, int)| #[trigger] cl1.contains(w) && w.1 == a3;
    let v0 = choose|w: (int, int)| #[trigger] cl2.contains(w) && w.0 == b0;
    let v1 = choose|w: (int, int)| #[trigger] cl2.contains(w) && w.0 == b1;
    let v2 = choose|w: (int, int)| #[trigger] cl2.contains(w) && w.1 == b2;
    let v3 = choose|w: (int, int)| #[trigger] cl2.contains(w) && w.1 == b3;
    assert(cl2.contains(w0) && cl2.contains(w1) && cl2.contains(w2) && cl2.contains(w3));
    lemma_connected_ends(d2, cols, rows, l2, v0);
    lemma_connected_ends(d2, cols, rows, l2, v1);
    lemma_connected_ends(d2, cols, rows, l2, v2);
    lemma_connected_ends(d2, cols, rows, l2, v3);
    assert(0 <= b0 <= a0 <= a1 <= b1 < cols);
    assert(0 <= b2 <= a2 <= a3 <= b3 < rows);
    assert(0 <= b0 * bs <= a0 * bs && a0 * bs + (a1 - a0 + 1) * bs <= b0 * bs + (b1 - b0 + 1) * bs && (b1 - b0 + 1) * bs <= cols * bs
        && (a1 - a0 + 1) * bs >= 0 && b0 * bs <= cols * bs && a0 * bs <= cols * bs) by (nonlinear_arith)
        requires 0 <= b0 <= a0 <= a1 <= b1 < cols, bs >= 0;
    assert(0 <= b2 * bs <= a2 * bs && a2 * bs + (a3 - a2 + 1) * bs <= b2 * bs + (b3 - b2 + 1) * bs && (b3 - b2 + 1) * bs <= rows * bs
        && (a3 - a2 + 1) * bs >= 0 && b2 * bs <= rows * bs && a2 * bs <= rows * bs) by (nonlinear_arith)
        requires 0 <= b2 <= a2 <= a3 <= b3 < rows, bs >= 0;
    assert((a1 - a0 + 1) * bs <= cols * bs && (a3 - a2 + 1) * bs <= rows * bs) by (nonlinear_arith)
        requires 0 <= a0 <= a1 < cols, 0 <= a2 <= a3 < rows, bs >= 0;
    assert(inside(r1, sorted2[j]));
}

// ----- what the SAD adds up -----

/// Sum of `|reference - target|` in channel `c` over the first `n` pixels
/// of a row that starts at `(rx, ry)` in the reference and at `(tx, ty)` in
/// the target.
pub open spec fn channel_row_diff(r: ImageView, t: ImageView, rx: int, ry: int, tx: int, ty: int, n: int, c: int) -> int
    decreases n,
{
    if n <= 0 {
        0
    } else {
        channel_row_diff(r, t, rx, ry, tx, ty, n - 1, c) + abs_int(
            r.channel(rx + n - 1, ry, c) - t.channel(tx + n - 1, ty, c),
        )
    }
}

/// Sum of `|reference - target|` in channel `c` over the first `k` rows of
/// the `b`×`b` blocks at `(rx, ry)` (reference) and `(tx, ty)` (target).
pub open spec fn channel_block_diff(r: ImageView, t: ImageView, rx: int, ry: int, tx: int, ty: int, b: int, k: int, c: int) -> int
    decreases k,
{
    if k <= 0 {
        0
    } else {
        channel_block_diff(r, t, rx, ry, tx, ty, b, k - 1, c) + channel_row_diff(r, t, rx, ry + k - 1, tx, ty + k - 1, b, c)
    }
}

proof fn lemma_row_sad_channels(r: ImageView, t: ImageView, rx: int, ry: int, tx: int, ty: int, n: int)
    ensures
        row_sad(r, t, rx, ry, tx, ty, n) == channel_row_diff(r, t, rx, ry, tx, ty, n, 0) + channel_row_diff(
            r,
            t,
            rx,
            ry,
            tx,
            ty,
            n,
            1,
        ) + channel_row_diff(r, t, rx, ry, tx, ty, n, 2),
    decreases n,
{
    if n > 0 {
        lemma_row_sad_channels(r, t, rx, ry, tx, ty, n - 1);
    }
}

proof fn lemma_rows_sad_channels(r: ImageView, t: ImageView, rx: int, ry: int, tx: int, ty: int, b: int, k: int)
    ensures
        rows_sad(r, t, rx, ry, tx, ty, b, k) == channel_block_diff(r, t, rx, ry, tx, ty, b, k, 0) + channel_block_diff(
            r,
            t,
            rx,
            ry,
            tx,
            ty,
            b,
            k,
            1,
        ) + channel_block_diff(r, t, rx, ry, tx, ty, b, k, 2),
    decreases k,
{
    if k > 0 {
        lemma_rows_sad_channels(r, t, rx, ry, tx, ty, b, k - 1);
        lemma_row_sad_channels(r, t, rx, ry + k - 1, tx, ty + k - 1, b);
    }
}

/// The SAD of two blocks is the sum, over their pixels, of the absolute
/// differences in red, green and blue: each of channels 0, 1 and 2 is
/// counted exactly once and alpha not at all.
pub proof fn law_sad_counts_each_colour_once(r: ImageView, t: ImageView, rx: int, ry: int, tx: int, ty: int, b: int)
    ensures
        block_sad(r, t, rx, ry, tx, ty, b) == channel_block_diff(r, t, rx, ry, tx, ty, b, b, 0) + channel_block_diff(
            r,
            t,
            rx,
            ry,
            tx,
            ty,
            b,
            b,
            1,
        ) + channel_block_diff(r, t, rx, ry, tx, ty, b, b, 2),
{
    lemma_rows_sad_channels(r, t, rx, ry, tx, ty, b, b);
}

/// The cost reported for a block, in either mode, is the sum over its
/// pixels of the red, green and blue differences to the displaced block of
/// the target; so a block that differs from that block in one channel only
/// still has a positive cost.
pub proof fn law_block_cost_counts_each_colour(r: ImageView, t: ImageView, opts: BlockMatchOptions, bx: int, by: int)
    requires
        r.wf(),
        t.wf(),
        diff_supported(r, t, opts),
        0 <= bx < grid_cols(r, t, opts),
        0 <= by < grid_rows(r, t, opts),
    ensures
        ({
            let v = block_vector(r, t, opts, bx, by);
            let b = effective_block(opts);
            let tx = bx * b + v.dx;
            let ty = by * b + v.dy;
            v.cost == channel_block_diff(r, t, bx * b, by * b, tx, ty, b, b, 0) + channel_block_diff(
                r,
                t,
                bx * b,
                by * b,
                tx,
                ty,
                b,
                b,
                1,
            ) + channel_block_diff(r, t, bx * b, by * b, tx, ty, b, b, 2)
        }),
{
    let v = block_vector(r, t, opts, bx, by);
    let b = effective_block(opts);
    law_vector_is_genuine(r, t, opts, bx, by);
    law_sad_counts_each_colour_once(r, t, bx * b, by * b, bx * b + v.dx, by * b + v.dy, b);
}

// ----- the highlight styles -----

/// In the outline style a pixel of the image is painted exactly when it
/// lies in the region's box clipped to the image and within
/// `max(stroke, 1)` pixels of one of the four edges of that clipped box:
/// the top, the bottom, the left, or the right edge at
/// `min(x + width, image width)`. A painted pixel takes the colour with
/// full opacity; every other pixel keeps its bytes.
pub proof fn law_outline_bands(v: ImageView, rg: Region, color: [u8; 3], stroke: u32, x: int, y: int, c: int)
    requires
        v.wf(),
        v.in_bounds(x, y),
        0 <= c < 4,
    ensures
        ({
            let s = if stroke >= 1 { stroke as int } else { 1int };
            let x1 = rg.x as int;
            let y1 = rg.y as int;
            let x2 = if rg.x + rg.width <= v.width { rg.x + rg.width } else { v.width as int };
            let y2 = if rg.y + rg.height <= v.height { rg.y + rg.height } else { v.height as int };
            let painted = x1 <= x < x2 && y1 <= y < y2 && (y < y1 + s || y >= y2 - s || x < x1 + s || x >= x2 - s);
            let out = paint_region_view(v, rg, color, HighlightStyle::Outline { stroke });
            &&& out.wf()
            &&& out.channel(x, y, c) == if painted {
                if c == 3 {
                    255u8
                } else {
                    color[c]
                }
            } else {
                v.channel(x, y, c)
            }
        }),
{
    let p: [u8; 4] = [color[0], color[1], color[2], 255];
    lemma_repaint_channel(v, |px: int, py: int| in_outline(v, rg, stroke, px, py), fill_with(p), x, y, c);
}

/// An outline is symmetric: for a box inside the image, a pixel and its
/// mirror image across the box's vertical centre line end up alike when
/// they started alike (the left and right bands have the same width).
pub proof fn law_outline_mirrors(v: ImageView, rg: Region, color: [u8; 3], stroke: u32, x: int, y: int, c: int)
    requires
        v.wf(),
        rg.x + rg.width <= v.width,
        rg.y + rg.height <= v.height,
        v.in_bounds(x, y),
        v.in_bounds(2 * rg.x + rg.width - 1 - x, y),
        0 <= c < 4,
        v.channel(x, y, c) == v.channel(2 * rg.x + rg.width - 1 - x, y, c),
    ensures
        ({
            let out = paint_region_view(v, rg, color, HighlightStyle::Outline { stroke });
            out.channel(x, y, c) == out.channel(2 * rg.x + rg.width - 1 - x, y, c)
        }),
{
    law_outline_bands(v, rg, color, stroke, x, y, c);
    law_outline_bands(v, rg, color, stroke, 2 * rg.x + rg.width - 1 - x, y, c);
}

/// In the filled style exactly the pixels of the region's box clipped to
/// the image change: their red, green and blue are blended toward the
/// colour with opacity 102/255, rounded down, and their alpha is kept.
pub proof fn law_filled_box(v: ImageView, rg: Region, color: [u8; 3], x: int, y: int, c: int)
    requires
        v.wf(),
        v.in_bounds(x, y),
        0 <= c < 4,
    ensures
        ({
            let x2 = if rg.x + rg.width <= v.width { rg.x + rg.width } else { v.width as int };
            let y2 = if rg.y + rg.height <= v.height { rg.y + rg.height } else { v.height as int };
            let inside = rg.x <= x < x2 && rg.y <= y < y2;
            let out = paint_region_view(v, rg, color, HighlightStyle::Filled);
            &&& out.wf()
            &&& out.channel(x, y, c) == if inside && c < 3 {
                (color[c] as int * 102 + v.channel(x, y, c) as int * 153) / 255
            } else {
                v.channel(x, y, c) as int
            }
        }),
{
    lemma_repaint_channel(v, |px: int, py: int| in_rect(v, rg, px, py), blend_with(color, FILLED_ALPHA), x, y, c);
    if c < 3 {
        let a = color[c] as int;
        let o = v.channel(x, y, c) as int;
        assert(0 <= (a * 102 + o * 153) / 255 <= 255) by (nonlinear_arith)
            requires 0 <= a <= 255, 0 <= o <= 255;
    }
}

// ----- the pyramid's prediction -----

/// In the pyramid diff a block starts from the vector that the coarse pass
/// found for the coarse block containing its centre (clamped to the
/// coarse grid), scaled back up: the
/// horizontal prediction is the coarse `dx` times the scale and the
/// vertical one the coarse `dy` times the scale. The block's cost is no
/// larger than the SAD at that prediction or at any displacement within
/// the refinement radius of it; so a shift the coarse pass finds exactly is
/// recovered at full resolution.
pub proof fn law_pyramid_scales_coarse_vector(
    r: ImageView,
    t: ImageView,
    opts: BlockMatchOptions,
    scale: u32,
    refine_radius: i32,
    bx: int,
    by: int,
    i: int,
    j: int,
)
    requires
        r.wf(),
        t.wf(),
        pyramid_supported(r, t, opts, scale, refine_radius),
        0 <= bx < grid_cols(r, t, opts),
        0 <= by < grid_rows(r, t, opts),
        abs_int(i) <= refine_radius,
        abs_int(j) <= refine_radius,
    ensures
        ({
            let k = scale as int;
            let cb = coarse_block(opts, k);
            let cr = coarse_view(r, k, cb);
            let ct = coarse_view(t, k, cb);
            let copts = coarse_options(opts, k);
            let b = opts.block_size as int;
            let lastx = if grid_cols(cr, ct, copts) >= 1 { grid_cols(cr, ct, copts) - 1 } else { 0 };
            let lasty = if grid_rows(cr, ct, copts) >= 1 { grid_rows(cr, ct, copts) - 1 } else { 0 };
            let cx = (bx * b + b / 2) / k / cb;
            let cy = (by * b + b / 2) / k / cb;
            let cv = block_vector(
                cr,
                ct,
                copts,
                if cx > lastx { lastx } else { cx },
                if cy > lasty { lasty } else { cy },
            );
            pyramid_vector(r, t, opts, k, refine_radius as int, bx, by).cost <= block_search(r, t, opts, bx, by).cost(
                cv.dx * k + i,
                cv.dy * k + j,
            )
        }),
{
    law_pyramid_refines_prediction(r, t, opts, scale, refine_radius, bx, by, i, j);
}

// ----- the refinement of hierarchical mode -----

/// `(i, j)` is one of the eight offsets of a 3×3 ring around its centre.
pub open spec fn ring_offset(i: int, j: int) -> bool {
    -1 <= i <= 1 && -1 <= j <= 1 && !(i == 0 && j == 0)
}

/// Ring offset `(i2, j2)` is probed before `(i, j)`: the ring is read row
/// by row, top to bottom, left to right.
pub open spec fn ring_before(i2: int, j2: int, i: int, j: int) -> bool {
    j2 < j || (j2 == j && i2 < i)
}

/// A ring of probes around the best of `s` that no probe before neighbor
/// `m` improves reaches neighbor `m`.
proof fn lemma_ring_reaches(search: BlockSearch, s: SearchState, sx: int, sy: int, stride: int, k: int, m: int)
    requires
        search_ok(search),
        state_genuine(search, s),
        0 <= k <= m < 8,
        forall|k2: int|
            k <= k2 < m ==> abs_int(s.best_dx + (#[trigger] neighbor(k2)).0 * stride) > sx || abs_int(
                s.best_dy + neighbor(k2).1 * stride,
            ) > sy || search.cost(s.best_dx + neighbor(k2).0 * stride, s.best_dy + neighbor(k2).1 * stride)
                >= s.best_cost,
        abs_int(s.best_dx + neighbor(m).0 * stride) <= sx,
        abs_int(s.best_dy + neighbor(m).1 * stride) <= sy,
    ensures
        probe_ring(search, s, sx, sy, stride, k).best_cost <= search.cost(
            s.best_dx + neighbor(m).0 * stride,
            s.best_dy + neighbor(m).1 * stride,
        ),
    decreases m - k,
{
    let dx = s.best_dx + neighbor(k).0 * stride;
    let dy = s.best_dy + neighbor(k).1 * stride;
    let s1 = probe(search, s, sx, sy, stride, k);
    assert(probe_ring(search, s, sx, sy, stride, k) == probe_ring(search, s1, sx, sy, stride, k + 1));
    if k == m {
        lemma_visit_genuine(search, s, dx, dy);
        lemma_probe_ring_genuine(search, s1, sx, sy, stride, k + 1);
    } else {
        assert(abs_int(dx) > sx || abs_int(dy) > sy || search.cost(dx, dy) >= s.best_cost);
        assert(s1 == s);
        lemma_ring_reaches(search, s, sx, sy, stride, k + 1, m);
    }
}

/// `s2` is one of the strides `s, s / 2, s / 4, …` down to 1.
pub open spec fn halving_stride(s: int, s2: int) -> bool
    decreases s,
{
    s >= 1 && (s2 == s || (s > 1 && halving_stride(s / 2, s2)))
}

/// The ring offset probed as neighbor `m`.
proof fn lemma_ring_index(i: int, j: int) -> (m: int)
    requires
        ring_offset(i, j),
    ensures
        0 <= m < 8,
        neighbor(m) == (i, j),
        forall|k2: int| 0 <= k2 < m ==> ring_offset(#[trigger] neighbor(k2).0, neighbor(k2).1) && ring_before(neighbor(k2).0, neighbor(k2).1, i, j),
{
    if j == -1 {
        i + 1
    } else if j == 0 {
        if i == -1 { 3int } else { 4int }
    } else {
        i + 6
    }
}

/// A ring of probes either leaves the state as it is or strictly lowers
/// the best cost; when it leaves it, no probe of the ring inside the window
/// did better.
proof fn lemma_ring_kept(search: BlockSearch, s: SearchState, sx: int, sy: int, stride: int, k: int)
    requires
        search_ok(search),
        state_genuine(search, s),
    ensures
        probe_ring(search, s, sx, sy, stride, k) == s || probe_ring(search, s, sx, sy, stride, k).best_cost < s.best_cost,
        probe_ring(search, s, sx, sy, stride, k) == s ==> forall|k2: int|
            k <= k2 < 8 && abs_int(s.best_dx + (#[trigger] neighbor(k2)).0 * stride) <= sx && abs_int(
                s.best_dy + neighbor(k2).1 * stride,
            ) <= sy ==> search.cost(s.best_dx + neighbor(k2).0 * stride, s.best_dy + neighbor(k2).1 * stride)
                >= s.best_cost,
    decreases 8 - k,
{
    if k < 8 {
        let dx = s.best_dx + neighbor(k).0 * stride;
        let dy = s.best_dy + neighbor(k).1 * stride;
        let s1 = probe(search, s, sx, sy, stride, k);
        assert(probe_ring(search, s, sx, sy, stride, k) == probe_ring(search, s1, sx, sy, stride, k + 1));
        if !(abs_int(dx) > sx || abs_int(dy) > sy) {
            lemma_visit_genuine(search, s, dx, dy);
        }
        if s1 == s {
            lemma_ring_kept(search, s, sx, sy, stride, k + 1);
        } else {
            lemma_probe_ring_genuine(search, s1, sx, sy, stride, k + 1);
        }
    }
}

/// The rings from `stride` down to 1 either leave the state as it is or
/// strictly lower the best cost.
proof fn lemma_refine_moves_down(search: BlockSearch, s: SearchState, sx: int, sy: int, stride: int)
    requires
        search_ok(search),
        state_genuine(search, s),
    ensures
        refine(search, s, sx, sy, stride) == s || refine(search, s, sx, sy, stride).best_cost < s.best_cost,
    decreases stride,
{
    let ring = probe_ring(search, s, sx, sy, stride, 0);
    lemma_ring_kept(search, s, sx, sy, stride, 0);
    lemma_probe_ring_genuine(search, s, sx, sy, stride, 0);
    if stride > 1 {
        lemma_refine_moves_down(search, ring, sx, sy, stride / 2);
        lemma_refine_genuine(search, ring, sx, sy, stride / 2);
    }
}

/// Rings from `stride` down to 1 that leave the state as it is found
/// nothing better at any ring offset, at any stride of the halving
/// sequence, inside the window.
proof fn lemma_refine_kept(search: BlockSearch, s: SearchState, sx: int, sy: int, stride: int, s2: int, i: int, j: int)
    requires
        search_ok(search),
        state_genuine(search, s),
        refine(search, s, sx, sy, stride) == s,
        halving_stride(stride, s2),
        ring_offset(i, j),
        abs_int(s.best_dx + i * s2) <= sx,
        abs_int(s.best_dy + j * s2) <= sy,
    ensures
        search.cost(s.best_dx + i * s2, s.best_dy + j * s2) >= s.best_cost,
    decreases stride,
{
    let ring = probe_ring(search, s, sx, sy, stride, 0);
    lemma_ring_kept(search, s, sx, sy, stride, 0);
    lemma_probe_ring_genuine(search, s, sx, sy, stride, 0);
    if stride > 1 {
        lemma_refine_genuine(search, ring, sx, sy, stride / 2);
    }
    assert(ring == s);
    if s2 == stride {
        let m = lemma_ring_index(i, j);
        assert(abs_int(s.best_dx + neighbor(m).0 * stride) <= sx);
    } else {
        lemma_refine_kept(search, s, sx, sy, stride / 2, s2, i, j);
    }
}

/// In hierarchical mode the coarse scan samples the window every
/// `coarse = max(sx, sy) / 8` pixels (at least 1, at most the block size),
/// and the refinement starts with a ring of probes at half that stride (at
/// least 1) around the best displacement of the coarse scan, before
/// halving the stride down to 1. So the cost reported
/// for a block is no larger than the SAD at `best + (i·s, j·s)` for a ring
/// offset `(i, j)` inside the window, `s = max(1, coarse / 2)`, provided
/// no probe before it in the ring improved on the coarse best (an
/// improvement moves the centre of the remaining probes). In particular a
/// block whose SAD there is 0 is reported with cost 0 and matched.
pub proof fn law_refinement_starts_at_half_coarse_stride(
    r: ImageView,
    t: ImageView,
    opts: BlockMatchOptions,
    bx: int,
    by: int,
    i: int,
    j: int,
)
    requires
        r.wf(),
        t.wf(),
        diff_supported(r, t, opts),
        opts.mode == SearchMode::Hierarchical,
        0 <= bx < grid_cols(r, t, opts),
        0 <= by < grid_rows(r, t, opts),
        ring_offset(i, j),
        ({
            let search = block_search(r, t, opts, bx, by);
            let sx = radius(opts.search_x);
            let sy = radius(opts.search_y);
            let m = (if sx >= sy { sx } else { sy }) / 8;
            let coarse = if m < 1 { 1 } else if m > effective_block(opts) { effective_block(opts) } else { m };
            let c = visit_all(search, start_state(search), window_rows(-sy, sy, sx, coarse));
            let s = if coarse / 2 < 1 { 1 } else { coarse / 2 };
            &&& abs_int(c.best_dx + i * s) <= sx
            &&& abs_int(c.best_dy + j * s) <= sy
            &&& forall|i2: int, j2: int|
                ring_offset(i2, j2) && #[trigger] ring_before(i2, j2, i, j) && abs_int(c.best_dx + i2 * s) <= sx
                    && abs_int(c.best_dy + j2 * s) <= sy ==> search.cost(c.best_dx + i2 * s, c.best_dy + j2 * s)
                    >= c.best_cost
        }),
    ensures
        ({
            let search = block_search(r, t, opts, bx, by);
            let sx = radius(opts.search_x);
            let sy = radius(opts.search_y);
            let m = (if sx >= sy { sx } else { sy }) / 8;
            let coarse = if m < 1 { 1 } else if m > effective_block(opts) { effective_block(opts) } else { m };
            let c = visit_all(search, start_state(search), window_rows(-sy, sy, sx, coarse));
            let s = if coarse / 2 < 1 { 1 } else { coarse / 2 };
            let v = block_vector(r, t, opts, bx, by);
            &&& v.cost <= search.cost(c.best_dx + i * s, c.best_dy + j * s)
            &&& search.cost(c.best_dx + i * s, c.best_dy + j * s) == 0 ==> v.cost == 0 && v.matched
        }),
{
    let search = block_search(r, t, opts, bx, by);
    let sx = radius(opts.search_x);
    let sy = radius(opts.search_y);
    let m0 = (if sx >= sy { sx } else { sy }) / 8;
    let coarse = if m0 < 1 { 1 } else if m0 > effective_block(opts) { effective_block(opts) } else { m0 };
    assert(coarse == coarse_stride(sx, sy, effective_block(opts)));
    let rows = window_rows(-sy, sy, sx, coarse);
    let c = visit_all(search, start_state(search), rows);
    let s = if coarse / 2 < 1 { 1 } else { coarse / 2 };
    lemma_block_setup(r, t, opts, bx, by);
    lemma_block_outcome(r, t, opts, bx, by, 0, 0);
    lemma_scan_facts(search, sx, sy, coarse, 0, 0);
    let m = lemma_ring_index(i, j);
    assert forall|k2: int|
        0 <= k2 < m implies abs_int(c.best_dx + (#[trigger] neighbor(k2)).0 * s) > sx || abs_int(
            c.best_dy + neighbor(k2).1 * s,
        ) > sy || search.cost(c.best_dx + neighbor(k2).0 * s, c.best_dy + neighbor(k2).1 * s) >= c.best_cost by {
        assert(ring_before(neighbor(k2).0, neighbor(k2).1, i, j));
    }
    lemma_ring_reaches(search, c, sx, sy, s, 0, m);
    let ring = probe_ring(search, c, sx, sy, s, 0);
    lemma_probe_ring_genuine(search, c, sx, sy, s, 0);
    if s > 1 {
        lemma_refine_genuine(search, ring, sx, sy, s / 2);
    }
    assert(hierarchical_search(search, sx, sy).best_cost <= ring.best_cost);
    let b = effective_block(opts);
    assert(match_threshold(opts) >= 0) by (nonlinear_arith)
        requires match_threshold(opts) == b * b * 3 * opts.threshold, b >= 1, opts.threshold >= 0;
}

/// In hierarchical mode the rings of probes halve their stride down to 1:
/// when the displacement reported for a block is the best of the coarse
/// scan (the refinement found nothing better), its cost is no larger than
/// the SAD at `best + (i·s', j·s')` for every ring offset `(i, j)` and
/// every stride `s'` of the sequence `s, s / 2, …, 1` from
/// `s = max(1, coarse / 2)` that stays inside the window; in particular
/// than at each of its eight neighbours.
pub proof fn law_refinement_halves_down_to_one(
    r: ImageView,
    t: ImageView,
    opts: BlockMatchOptions,
    bx: int,
    by: int,
    i: int,
    j: int,
    s2: int,
)
    requires
        r.wf(),
        t.wf(),
        diff_supported(r, t, opts),
        opts.mode == SearchMode::Hierarchical,
        0 <= bx < grid_cols(r, t, opts),
        0 <= by < grid_rows(r, t, opts),
        ring_offset(i, j),
        ({
            let search = block_search(r, t, opts, bx, by);
            let sx = radius(opts.search_x);
            let sy = radius(opts.search_y);
            let m = (if sx >= sy { sx } else { sy }) / 8;
            let coarse = if m < 1 { 1 } else if m > effective_block(opts) { effective_block(opts) } else { m };
            let c = visit_all(search, start_state(search), window_rows(-sy, sy, sx, coarse));
            let s = if coarse / 2 < 1 { 1 } else { coarse / 2 };
            let v = block_vector(r, t, opts, bx, by);
            &&& v.dx == c.best_dx
            &&& v.dy == c.best_dy
            &&& halving_stride(s, s2)
            &&& abs_int(c.best_dx + i * s2) <= sx
            &&& abs_int(c.best_dy + j * s2) <= sy
        }),
    ensures
        ({
            let search = block_search(r, t, opts, bx, by);
            let sx = radius(opts.search_x);
            let sy = radius(opts.search_y);
            let m = (if sx >= sy { sx } else { sy }) / 8;
            let coarse = if m < 1 { 1 } else if m > effective_block(opts) { effective_block(opts) } else { m };
            let c = visit_all(search, start_state(search), window_rows(-sy, sy, sx, coarse));
            block_vector(r, t, opts, bx, by).cost <= search.cost(c.best_dx + i * s2, c.best_dy + j * s2)
        }),
{
    let search = block_search(r, t, opts, bx, by);
    let sx = radius(opts.search_x);
    let sy = radius(opts.search_y);
    let m0 = (if sx >= sy { sx } else { sy }) / 8;
    let coarse = if m0 < 1 { 1 } else if m0 > effective_block(opts) { effective_block(opts) } else { m0 };
    assert(coarse == coarse_stride(sx, sy, effective_block(opts)));
    let c = visit_all(search, start_state(search), window_rows(-sy, sy, sx, coarse));
    let s = if coarse / 2 < 1 { 1 } else { coarse / 2 };
    lemma_block_setup(r, t, opts, bx, by);
    lemma_block_outcome(r, t, opts, bx, by, 0, 0);
    lemma_scan_facts(search, sx, sy, coarse, 0, 0);
    let fin = refine(search, c, sx, sy, s);
    assert(fin == hierarchical_search(search, sx, sy));
    lemma_refine_moves_down(search, c, sx, sy, s);
    lemma_refine_genuine(search, c, sx, sy, s);
    assert(c.best_cost < u64::MAX);
    assert(fin == c);
    lemma_refine_kept(search, c, sx, sy, s, s2, i, j);
}

// ----- how far the merge gap reaches -----

/// One step from `p` toward `b` on each axis where they differ.
pub open spec fn step_toward(p: (int, int), b: (int, int)) -> (int, int) {
    (
        if p.0 < b.0 { p.0 + 1 } else if p.0 > b.0 { p.0 - 1 } else { p.0 },
        if p.1 < b.1 { p.1 + 1 } else if p.1 > b.1 { p.1 - 1 } else { p.1 },
    )
}

/// Every cell within the merge gap of an unmatched block is set in the
/// dilated grid.
proof fn lemma_halo_reaches(vs: Seq<MotionVector>, cols: int, rows: int, gap: u32, b: (int, int), q: (int, int))
    requires
        cols >= 0,
        rows >= 0,
        vs.len() == cols * rows,
        in_grid(cols, rows, b),
        mask_at(unmatched_flags(vs), cols, b),
        in_grid(cols, rows, q),
        abs_int(q.0 - b.0) <= gap as int,
        abs_int(q.1 - b.1) <= gap as int,
    ensures
        mask_at(halo_flags(vs, cols, rows, gap), cols, q),
{
    let u = unmatched_flags(vs);
    let idx = cell_index(cols, q);
    lemma_cell_in_range(cols, rows, q.0, q.1);
    vstd::arithmetic::div_mod::lemma_fundamental_div_mod_converse(idx, cols, q.1, q.0);
    assert((idx % cols, idx / cols) == q);
    assert(near(gap_radius(gap), b, q));
    assert(dilated_at(u, cols, rows, gap_radius(gap), q));
}

/// Walking from `p` straight toward an unmatched block `b` that is at most
/// `gap + 1` cells away on each axis stays on set cells of the dilated
/// grid.
proof fn lemma_halo_walk(vs: Seq<MotionVector>, cols: int, rows: int, gap: u32, a: (int, int), p: (int, int), b: (int, int))
    requires
        cols >= 0,
        rows >= 0,
        vs.len() == cols * rows,
        in_grid(cols, rows, b),
        mask_at(unmatched_flags(vs), cols, b),
        in_grid(cols, rows, p),
        abs_int(p.0 - b.0) <= gap as int + 1,
        abs_int(p.1 - b.1) <= gap as int + 1,
        connected(halo_flags(vs, cols, rows, gap), cols, rows, a, p),
    ensures
        connected(halo_flags(vs, cols, rows, gap), cols, rows, a, b),
    decreases abs_int(p.0 - b.0) + abs_int(p.1 - b.1),
{
    if p != b {
        let d = halo_flags(vs, cols, rows, gap);
        let q = step_toward(p, b);
        lemma_halo_reaches(vs, cols, rows, gap, b, q);
        lemma_connected_extend(d, cols, rows, a, p, q);
        lemma_halo_walk(vs, cols, rows, gap, a, q, b);
    }
}

/// The box of a cluster of grid cells covers each of its cells.
proof fn lemma_cluster_box_covers(cl: Set<(int, int)>, cols: int, rows: int, bs: int, c: (int, int))
    requires
        cl.finite(),
        cl.contains(c),
        bs >= 0,
        cols * bs <= u32::MAX,
        rows * bs <= u32::MAX,
        forall|w: (int, int)| #[trigger] cl.contains(w) ==> in_grid(cols, rows, w),
    ensures
        covers(cluster_region(cl, bs), c.0, c.1, bs),
{
    vstd::set::axiom_set_contains_len(cl, c);
    lemma_extremes_exist(cl);
    let x0 = choose|v: int| lowest_col(cl, v);
    let x1 = choose|v: int| highest_col(cl, v);
    let y0 = choose|v: int| lowest_row(cl, v);
    let y1 = choose|v: int| highest_row(cl, v);
    let w0 = choose|w: (int, int)| #[trigger] cl.contains(w) && w.0 == x0;
    let w1 = choose|w: (int, int)| #[trigger] cl.contains(w) && w.0 == x1;
    let w2 = choose|w: (int, int)| #[trigger] cl.contains(w) && w.1 == y0;
    let w3 = choose|w: (int, int)| #[trigger] cl.contains(w) && w.1 == y1;
    assert(in_grid(cols, rows, w0) && in_grid(cols, rows, w1) && in_grid(cols, rows, w2) && in_grid(cols, rows, w3));
    assert(0 <= x0 <= c.0 <= x1 < cols);
    assert(0 <= y0 <= c.1 <= y1 < rows);
    assert(0 <= x0 * bs <= c.0 * bs && c.0 * bs + bs <= x0 * bs + (x1 - x0 + 1) * bs && (x1 - x0 + 1) * bs <= cols * bs)
        by (nonlinear_arith)
        requires 0 <= x0 <= c.0 <= x1 < cols, bs >= 0;
    assert(0 <= y0 * bs <= c.1 * bs && c.1 * bs + bs <= y0 * bs + (y1 - y0 + 1) * bs && (y1 - y0 + 1) * bs <= rows * bs)
        by (nonlinear_arith)
        requires 0 <= y0 <= c.1 <= y1 < rows, bs >= 0;
    assert(x0 * bs <= cols * bs) by (nonlinear_arith)
        requires 0 <= x0 < cols, bs >= 0;
    assert(y0 * bs <= rows * bs) by (nonlinear_arith)
        requires 0 <= y0 < rows, bs >= 0;
}

/// With regions of any size kept, two unmatched blocks at most
/// `merge_gap + 1` blocks apart on each axis (so separated by at most
/// `merge_gap` matched blocks) lie in the box of one region: the dilation
/// reaches `merge_gap` blocks on each axis, whatever the gap.
pub proof fn law_merge_gap_bridges_blocks(
    vs: Seq<MotionVector>,
    cols: int,
    rows: int,
    bs: int,
    merge_gap: u32,
    min_blocks: u32,
    i: int,
    i2: int,
)
    requires
        cols >= 0,
        rows >= 0,
        bs >= 0,
        cols * bs <= u32::MAX,
        rows * bs <= u32::MAX,
        vs.len() == cols * rows,
        0 <= i < vs.len(),
        0 <= i2 < vs.len(),
        !vs[i].matched,
        !vs[i2].matched,
        min_blocks <= 1,
        abs_int(i % cols - i2 % cols) <= merge_gap as int + 1,
        abs_int(i / cols - i2 / cols) <= merge_gap as int + 1,
    ensures
        exists|k: int|
            0 <= k < regions_of(vs, cols, rows, bs, merge_gap, min_blocks).len() && covers(
                #[trigger] regions_of(vs, cols, rows, bs, merge_gap, min_blocks)[k],
                i % cols,
                i / cols,
                bs,
            ) && covers(regions_of(vs, cols, rows, bs, merge_gap, min_blocks)[k], i2 % cols, i2 / cols, bs),
{
    let u = unmatched_flags(vs);
    let d = halo_flags(vs, cols, rows, merge_gap);
    let kmin = if min_blocks == 0 { 1 } else { min_blocks as int };
    lemma_cell_of_index(cols, rows, i);
    lemma_cell_of_index(cols, rows, i2);
    let a = (i % cols, i / cols);
    let b = (i2 % cols, i2 / cols);
    assert(cell_index(cols, a) == i);
    assert(cell_index(cols, b) == i2);
    assert(mask_at(u, cols, a));
    assert(mask_at(u, cols, b));
    lemma_halo_reaches(vs, cols, rows, merge_gap, a, a);
    lemma_connected_refl(d, cols, rows, a);
    lemma_halo_walk(vs, cols, rows, merge_gap, a, a, b);
    lemma_leader_exists(d, cols, rows, a);
    let l = choose|l: (int, int)| #[trigger] is_leader(d, cols, rows, l) && connected(d, cols, rows, l, a);
    lemma_connected_trans(d, cols, rows, l, a, b);
    let cl = cluster(d, u, cols, rows, l);
    assert(cl.contains(a));
    assert(cl.contains(b));
    lemma_cluster_finite(d, u, cols, rows, l);
    vstd::set::axiom_set_contains_len(cl, a);
    assert forall|w: (int, int)| #[trigger] cl.contains(w) implies in_grid(cols, rows, w) by {
        lemma_connected_ends(d, cols, rows, l, w);
    }
    lemma_regions_from_has(d, u, cols, rows, bs, kmin, 0, 0, l);
    let found = regions_from(d, u, cols, rows, bs, kmin, 0, 0);
    let r = cluster_region(cl, bs);
    let sorted = regions_of(vs, cols, rows, bs, merge_gap, min_blocks);
    law_sorting_keeps_regions(found);
    assert(sorted.contains(r)) by {
        broadcast use vstd::seq_lib::group_to_multiset_ensures;

        assert(found.to_multiset().count(r) > 0);
    }
    let k = choose|k: int| 0 <= k < sorted.len() && sorted[k] == r;
    lemma_cluster_box_covers(cl, cols, rows, bs, a);
    lemma_cluster_box_covers(cl, cols, rows, bs, b);
    assert(covers(sorted[k], a.0, a.1, bs) && covers(sorted[k], b.0, b.1, bs));
}

} // verus!
