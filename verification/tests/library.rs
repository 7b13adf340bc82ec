use img_block_match::block_match::{
    diff, diff_bidirectional, BlockMatchOptions, BlockMatchResult, MotionVector, Region, SearchMode,
};
use img_block_match::buffer::RgbaBuffer;
use img_block_match::pyramid::diff_pyramid;
use img_block_match::render::{
    blend_pixel, draw_line, draw_regions, draw_vectors, heat_level, heatmap_cap, render_bidirectional, render_diff,
    render_heatmap, HighlightStyle, RenderOptions,
};
use img_block_match::report::{diff_png, PngDiffError, PngDiffOptions, Verdict};
use img_block_match::sad::sad_block;

fn solid(w: u32, h: u32, c: [u8; 4]) -> RgbaBuffer {
    RgbaBuffer::from_pixel(w, h, c)
}

fn paint(img: &mut RgbaBuffer, x0: u32, y0: u32, w: u32, h: u32, c: [u8; 4]) {
    for y in y0..y0 + h {
        for x in x0..x0 + w {
            img.put_pixel(x, y, c);
        }
    }
}

fn png_bytes(img: &RgbaBuffer) -> Vec<u8> {
    let buf = image::RgbaImage::from_raw(img.width(), img.height(), img.as_raw().clone()).unwrap();
    let mut out = Vec::new();
    buf.write_to(&mut std::io::Cursor::new(&mut out), image::ImageFormat::Png).unwrap();
    out
}

fn opts8() -> BlockMatchOptions {
    BlockMatchOptions {
        block_size: 8,
        ..Default::default()
    }
}

fn vector(cost: u64, second_cost: u64) -> MotionVector {
    MotionVector { dx: 0, dy: 0, cost, second_cost, matched: true }
}

// ----- SAD -----

#[test]
fn sad_block_sums_rgb_differences() {
    let a = solid(16, 16, [255, 0, 0, 255]);
    let b = solid(16, 16, [255, 255, 255, 0]);
    // Alpha is ignored: each pixel differs by 0 + 255 + 255.
    assert_eq!(sad_block(&a, &b, 0, 0, 0, 0, 8, u64::MAX), 64 * 510);
    assert_eq!(sad_block(&a, &a, 8, 8, 0, 0, 8, u64::MAX), 0);
}

#[test]
fn sad_block_outside_target_is_max() {
    let a = solid(16, 16, [0, 0, 0, 255]);
    let b = solid(16, 16, [0, 0, 0, 255]);
    assert_eq!(sad_block(&a, &b, 0, 0, -1, 0, 8, u64::MAX), u64::MAX);
    assert_eq!(sad_block(&a, &b, 0, 0, 9, 0, 8, u64::MAX), u64::MAX);
    assert_eq!(sad_block(&a, &b, 0, 0, 0, 9, 8, u64::MAX), u64::MAX);
    assert_eq!(sad_block(&a, &b, 0, 0, 8, 8, 8, u64::MAX), 0);
}

#[test]
fn sad_block_stops_after_row_above_cutoff() {
    let a = solid(16, 16, [255, 0, 0, 255]);
    let b = solid(16, 16, [255, 255, 255, 255]);
    // One row of 8 pixels costs 4080.
    assert_eq!(sad_block(&a, &b, 0, 0, 0, 0, 8, 100), 4080);
    // A row sum equal to the cutoff does not stop the sum.
    assert_eq!(sad_block(&a, &b, 0, 0, 0, 0, 8, 4080), 8160);
}

// ----- search laws on concrete images -----

#[test]
fn full_search_finds_exact_displacement() {
    let mut a = solid(32, 32, [255, 255, 255, 255]);
    paint(&mut a, 8, 8, 8, 8, [0, 200, 0, 255]);
    let mut b = solid(32, 32, [255, 255, 255, 255]);
    paint(&mut b, 13, 11, 8, 8, [0, 200, 0, 255]);
    let opts = BlockMatchOptions { block_size: 8, search_x: 8, search_y: 8, threshold: 0, ..Default::default() };
    let result = diff(&a, &b, &opts);
    let mv = result.get(1, 1);
    assert_eq!((mv.dx, mv.dy, mv.cost), (5, 3, 0));
    assert!(mv.matched);
}

#[test]
fn full_search_with_step_is_best_of_sampled_window() {
    let mut a = solid(32, 32, [255, 255, 255, 255]);
    paint(&mut a, 8, 8, 8, 8, [0, 200, 0, 255]);
    let mut b = solid(32, 32, [255, 255, 255, 255]);
    paint(&mut b, 13, 11, 8, 8, [0, 200, 0, 255]);
    let opts = BlockMatchOptions { block_size: 8, search_x: 8, search_y: 8, step: 2, threshold: 0, ..Default::default() };
    let result = diff(&a, &b, &opts);
    let mv = *result.get(1, 1);
    // The exact displacement (5, 3) is not sampled with step 2.
    assert!(mv.cost > 0);
    assert!(!mv.matched);
    // The reported cost is the SAD at the reported displacement...
    let at = sad_block(&a, &b, 8, 8, 8 + mv.dx as i64, 8 + mv.dy as i64, 8, u64::MAX);
    assert_eq!(mv.cost, at);
    // ...and no sampled displacement does better.
    let mut dy = -8i64;
    while dy <= 8 {
        let mut dx = -8i64;
        while dx <= 8 {
            let c = sad_block(&a, &b, 8, 8, 8 + dx, 8 + dy, 8, u64::MAX);
            assert!(mv.cost <= c);
            dx += 2;
        }
        dy += 2;
    }
}

#[test]
fn unmatched_block_has_no_match_in_window() {
    let mut a = solid(32, 32, [255, 255, 255, 255]);
    paint(&mut a, 8, 8, 8, 8, [200, 0, 0, 255]);
    let b = solid(32, 32, [255, 255, 255, 255]);
    let opts = BlockMatchOptions { block_size: 8, search_x: 4, search_y: 4, threshold: 8, ..Default::default() };
    let result = diff(&a, &b, &opts);
    let mv = *result.get(1, 1);
    assert!(!mv.matched);
    // Every candidate is white: 8 * 8 pixels at 55 + 255 + 255 each.
    assert_eq!(mv.cost, 64 * (55 + 255 + 255));
    let threshold_total = 8 * 8 * 3 * 8;
    for dy in -4i64..=4 {
        for dx in -4i64..=4 {
            assert!(sad_block(&a, &b, 8, 8, 8 + dx, 8 + dy, 8, u64::MAX) > threshold_total);
        }
    }
    // Every other block is white on white.
    assert_eq!(result.unmatched(), 1);
}

#[test]
fn hierarchical_vector_is_a_genuine_match() {
    let mut a = solid(64, 64, [255, 255, 255, 255]);
    paint(&mut a, 16, 16, 16, 16, [0, 0, 200, 255]);
    let mut b = solid(64, 64, [255, 255, 255, 255]);
    paint(&mut b, 21, 18, 16, 16, [0, 0, 200, 255]);
    let opts = BlockMatchOptions {
        block_size: 16,
        search_x: 16,
        search_y: 16,
        threshold: 0,
        mode: SearchMode::Hierarchical,
        ..Default::default()
    };
    let result = diff(&a, &b, &opts);
    for row in 0..result.rows {
        for col in 0..result.cols {
            let mv = result.get(col, row);
            assert!(mv.dx.abs() <= 16 && mv.dy.abs() <= 16);
            let (rx, ry) = (col * 16, row * 16);
            let at = sad_block(&a, &b, rx, ry, rx as i64 + mv.dx as i64, ry as i64 + mv.dy as i64, 16, u64::MAX);
            assert_eq!(mv.cost, at);
            assert!(mv.cost <= sad_block(&a, &b, rx, ry, rx as i64, ry as i64, 16, u64::MAX));
        }
    }
    let mv = result.get(1, 1);
    assert_eq!((mv.dx, mv.dy, mv.cost), (5, 2, 0));
}

#[test]
fn identical_images_match_at_zero_in_both_modes() {
    let mut img = solid(48, 32, [10, 20, 30, 255]);
    paint(&mut img, 5, 7, 20, 9, [200, 100, 0, 255]);
    for mode in [SearchMode::Full, SearchMode::Hierarchical] {
        let opts = BlockMatchOptions { block_size: 8, threshold: 0, mode, compute_confidence: true, ..Default::default() };
        let result = diff(&img, &img, &opts);
        assert_eq!(result.vectors.len(), 6 * 4);
        for v in &result.vectors {
            assert_eq!((v.dx, v.dy, v.cost), (0, 0, 0));
            assert!(v.matched);
        }
        assert!(result.unmatched_regions(0, 1).is_empty());
    }
}

#[test]
fn runner_up_is_reported_with_confidence() {
    let mut a = solid(64, 64, [255, 255, 255, 255]);
    paint(&mut a, 16, 16, 8, 8, [0, 200, 0, 255]);
    let mut b = solid(64, 64, [255, 255, 255, 255]);
    paint(&mut b, 32, 24, 8, 8, [0, 200, 0, 255]);
    let opts = BlockMatchOptions {
        block_size: 8,
        search_x: 24,
        search_y: 16,
        compute_confidence: true,
        ..Default::default()
    };
    let result = diff(&a, &b, &opts);
    let mv = *result.get(2, 2);
    assert_eq!((mv.dx, mv.dy, mv.cost), (16, 8, 0));
    assert!(mv.second_cost != u64::MAX && mv.second_cost > 0);
    assert_eq!(mv.confidence(), (mv.second_cost, mv.second_cost));
    // Without confidence a perfect match reports no runner-up.
    let plain = diff(&a, &b, &BlockMatchOptions { compute_confidence: false, ..opts });
    assert_eq!(plain.get(2, 2).second_cost, u64::MAX);
}

#[test]
fn runner_up_is_lowest_distinct_sad() {
    // Block 2 of a one-row image; its candidates dx = -2..2 cost
    // 6, 3, 3, 0, 0 in the target.
    let mut a = solid(5, 1, [9, 9, 9, 255]);
    a.put_pixel(2, 0, [0, 0, 0, 255]);
    let mut b = solid(5, 1, [0, 0, 0, 255]);
    for (x, v) in [(0u32, 2u8), (1, 1), (2, 1)] {
        b.put_pixel(x, 0, [v, v, v, 255]);
    }
    let opts = BlockMatchOptions {
        block_size: 1,
        search_x: 2,
        search_y: 0,
        threshold: 0,
        mode: SearchMode::Full,
        compute_confidence: true,
        ..Default::default()
    };
    let result = diff(&a, &b, &opts);
    let mv = *result.get(2, 0);
    assert_eq!((mv.dx, mv.dy, mv.cost), (1, 0, 0));
    // Farther than one block from dx = 1: dx = -2 (SAD 6) and dx = -1 (SAD 3).
    assert_eq!(mv.second_cost, 3);
    assert_eq!(mv.confidence(), (3, 3));
}

#[test]
fn hierarchical_runner_up_covers_scan_and_probes() {
    let mut a = solid(64, 64, [255, 255, 255, 255]);
    paint(&mut a, 16, 16, 16, 16, [30, 60, 200, 255]);
    paint(&mut a, 20, 20, 4, 4, [200, 60, 30, 255]);
    let mut b = solid(64, 64, [250, 250, 250, 255]);
    paint(&mut b, 21, 18, 16, 16, [30, 60, 200, 255]);
    paint(&mut b, 25, 22, 4, 4, [200, 60, 30, 255]);
    paint(&mut b, 40, 40, 16, 16, [30, 60, 190, 255]);
    let opts = BlockMatchOptions {
        block_size: 16,
        search_x: 24,
        search_y: 24,
        mode: SearchMode::Hierarchical,
        compute_confidence: true,
        ..Default::default()
    };
    let result = diff(&a, &b, &opts);
    let mv = *result.get(1, 1);
    let far = |dx: i64, dy: i64| (dx - mv.dx as i64).abs() > 16 || (dy - mv.dy as i64).abs() > 16;
    // Coarse stride: min(max(24, 24) / 8, 16) = 3.
    let mut coarse_min = u64::MAX;
    let mut dy = -24i64;
    while dy <= 24 {
        let mut dx = -24i64;
        while dx <= 24 {
            if far(dx, dy) {
                coarse_min = coarse_min.min(sad_block(&a, &b, 16, 16, 16 + dx, 16 + dy, 16, u64::MAX));
            }
            dx += 3;
        }
        dy += 3;
    }
    assert!(mv.second_cost <= coarse_min);
    assert!(mv.cost <= mv.second_cost);
    // The runner-up is the SAD at some far displacement of the window.
    let mut found = false;
    for dy in -24i64..=24 {
        for dx in -24i64..=24 {
            if far(dx, dy) && sad_block(&a, &b, 16, 16, 16 + dx, 16 + dy, 16, u64::MAX) == mv.second_cost {
                found = true;
            }
        }
    }
    assert!(found);
}

#[test]
fn confidence_values() {
    assert_eq!(vector(5, 20).confidence(), (15, 20));
    assert_eq!(vector(5, u64::MAX).confidence(), (1, 1));
    assert_eq!(vector(0, 0).confidence(), (0, 1));
    assert_eq!(vector(30, 20).confidence(), (0, 20));
    assert_eq!(vector(20, 20).confidence(), (0, 20));
}

#[test]
fn bidirectional_reverse_is_swapped_diff() {
    let mut a = solid(32, 32, [255, 255, 255, 255]);
    paint(&mut a, 0, 0, 8, 8, [0, 0, 0, 255]);
    let mut b = solid(40, 24, [255, 255, 255, 255]);
    paint(&mut b, 16, 8, 8, 8, [90, 0, 0, 255]);
    let opts = BlockMatchOptions { block_size: 8, search_x: 8, search_y: 8, ..Default::default() };
    let bd = diff_bidirectional(&a, &b, &opts);
    let back = diff(&b, &a, &opts);
    assert_eq!((bd.forward.width, bd.forward.height), (32, 24));
    assert_eq!((bd.forward.cols, bd.forward.rows), (4, 3));
    assert_eq!(bd.reverse.vectors.len(), back.vectors.len());
    for (x, y) in bd.reverse.vectors.iter().zip(back.vectors.iter()) {
        assert_eq!((x.dx, x.dy, x.cost, x.matched), (y.dx, y.dy, y.cost, y.matched));
    }
    assert_eq!(bd.forward.unmatched(), 1);
    assert_eq!(bd.reverse.unmatched(), 1);
}

#[test]
fn zero_block_size_and_step_count_as_one() {
    let img = solid(3, 2, [1, 2, 3, 4]);
    let opts = BlockMatchOptions { block_size: 0, step: 0, search_x: -5, search_y: 1, ..Default::default() };
    let result = diff(&img, &img, &opts);
    assert_eq!((result.block_size, result.cols, result.rows), (1, 3, 2));
    assert!(result.vectors.iter().all(|v| v.matched && v.cost == 0));
}

#[test]
fn pyramid_with_scale_one_is_plain_diff() {
    let mut a = solid(32, 32, [255, 255, 255, 255]);
    paint(&mut a, 8, 8, 8, 8, [0, 0, 0, 255]);
    let mut b = solid(32, 32, [255, 255, 255, 255]);
    paint(&mut b, 12, 8, 8, 8, [0, 0, 0, 255]);
    let opts = BlockMatchOptions { block_size: 8, search_x: 8, search_y: 8, ..Default::default() };
    let p = diff_pyramid(&a, &b, &opts, 1, 4);
    let d = diff(&a, &b, &opts);
    for (x, y) in p.vectors.iter().zip(d.vectors.iter()) {
        assert_eq!((x.dx, x.dy, x.cost), (y.dx, y.dy, y.cost));
    }
}

#[test]
fn pyramid_refines_within_radius() {
    let mut a = solid(64, 64, [255, 255, 255, 255]);
    paint(&mut a, 16, 16, 16, 16, [0, 120, 0, 255]);
    let mut b = solid(64, 64, [255, 255, 255, 255]);
    paint(&mut b, 19, 17, 16, 16, [0, 120, 0, 255]);
    let opts = BlockMatchOptions { block_size: 16, search_x: 16, search_y: 16, threshold: 0, ..Default::default() };
    let result = diff_pyramid(&a, &b, &opts, 2, 4);
    assert_eq!((result.cols, result.rows), (4, 4));
    let mv = result.get(1, 1);
    assert_eq!(mv.cost, 0);
    assert_eq!((mv.dx, mv.dy), (3, 1));
    assert_eq!(mv.second_cost, u64::MAX);
    for v in &result.vectors {
        assert_eq!(v.second_cost, u64::MAX);
    }
}

// ----- smoothing and clustering -----

#[test]
fn smoothing_keeps_fully_matched_grid_and_costs() {
    let mut a = solid(32, 32, [255, 255, 255, 255]);
    paint(&mut a, 3, 3, 4, 4, [0, 0, 0, 255]);
    let b = solid(32, 32, [255, 255, 255, 255]);
    let mut result = diff(&a, &b, &BlockMatchOptions { threshold: 255, ..opts8() });
    assert_eq!(result.unmatched(), 0);
    let before: Vec<(i32, i32, u64)> = result.vectors.iter().map(|v| (v.dx, v.dy, v.cost)).collect();
    result.smooth_matched();
    assert_eq!(result.unmatched(), 0);
    let after: Vec<(i32, i32, u64)> = result.vectors.iter().map(|v| (v.dx, v.dy, v.cost)).collect();
    assert_eq!(before, after);
}

#[test]
fn smoothing_fills_one_block_hole() {
    let img = solid(24, 24, [255, 255, 255, 255]);
    let mut result = diff(&img, &img, &opts8());
    for i in 0..9 {
        if i != 4 {
            result.vectors[i].matched = false;
        }
    }
    result.smooth_matched();
    // The centre sees 8 unmatched of 9; corners see 3 of 4.
    assert_eq!(result.unmatched(), 9);
}

fn grid_with_unmatched(cells: &[(u32, u32)]) -> BlockMatchResult {
    let img = solid(64, 64, [255, 255, 255, 255]);
    let mut result = diff(&img, &img, &opts8());
    for &(cx, cy) in cells {
        let i = (cy * result.cols + cx) as usize;
        result.vectors[i].matched = false;
    }
    result
}

#[test]
fn regions_come_sorted_by_corner() {
    // A single block at (2, 0), then a diagonal component whose first cell
    // (5, 0) comes later but whose box starts further left.
    let result = grid_with_unmatched(&[(2, 0), (5, 0), (4, 1), (3, 2), (2, 3), (1, 4), (0, 5)]);
    let regions = result.unmatched_regions(0, 1);
    assert_eq!(
        regions,
        vec![
            Region { x: 0, y: 0, width: 48, height: 48, block_count: 6 },
            Region { x: 16, y: 0, width: 8, height: 8, block_count: 1 },
        ]
    );
}

#[test]
fn min_blocks_drops_small_clusters() {
    let result = grid_with_unmatched(&[(2, 0), (5, 0), (4, 1), (3, 2), (2, 3), (1, 4), (0, 5)]);
    let big = result.unmatched_regions(0, 2);
    assert_eq!(big, vec![Region { x: 0, y: 0, width: 48, height: 48, block_count: 6 }]);
    assert_eq!(result.unmatched_regions(0, 0).len(), 2);
    assert_eq!(result.unmatched_regions(0, 7).len(), 0);
}

#[test]
fn merge_gap_halo_does_not_grow_box() {
    // Three matched blocks lie between the two unmatched ones.
    let result = grid_with_unmatched(&[(1, 1), (5, 1)]);
    assert_eq!(result.unmatched_regions(1, 1).len(), 2);
    let merged = result.unmatched_regions(2, 1);
    assert_eq!(merged, vec![Region { x: 8, y: 8, width: 40, height: 8, block_count: 2 }]);
}

#[test]
fn no_unmatched_block_no_region() {
    let result = grid_with_unmatched(&[]);
    assert!(result.unmatched_regions(3, 0).is_empty());
    assert_eq!(result.unmatched(), 0);
}

#[test]
fn every_unmatched_block_is_covered() {
    let cells = [(0u32, 0u32), (1, 1), (7, 0), (3, 4), (4, 6), (6, 6), (7, 7), (0, 7)];
    let result = grid_with_unmatched(&cells);
    for gap in [0u32, 1, 2, 5] {
        let regions = result.unmatched_regions(gap, 1);
        for &(cx, cy) in &cells {
            let (px, py) = (cx * 8, cy * 8);
            assert!(
                regions.iter().any(|r| r.x <= px && px + 8 <= r.x + r.width && r.y <= py && py + 8 <= r.y + r.height),
                "block ({}, {}) not covered with gap {}",
                cx,
                cy,
                gap
            );
        }
        let total: u32 = regions.iter().map(|r| r.block_count).sum();
        assert_eq!(total, cells.len() as u32);
    }
}

#[test]
fn huge_merge_gap_merges_everything() {
    let result = grid_with_unmatched(&[(1, 1), (5, 5)]);
    let whole = vec![Region { x: 8, y: 8, width: 40, height: 40, block_count: 2 }];
    assert_eq!(result.unmatched_regions(u32::MAX, 1), whole);
    assert_eq!(result.unmatched_regions(i32::MAX as u32 + 1, 1), whole);
    assert_eq!(result.unmatched_regions(i32::MAX as u32, 1), whole);
    assert_eq!(result.unmatched_regions(3, 1), whole);
    assert_eq!(result.unmatched_regions(1, 1).len(), 2);
}

// ----- PNG report -----

#[test]
fn identical_pngs_pass() {
    let mut img = solid(64, 48, [240, 240, 240, 255]);
    paint(&mut img, 10, 10, 20, 5, [0, 0, 0, 255]);
    let bytes = png_bytes(&img);
    let report = diff_png(&bytes, &bytes, &PngDiffOptions::new()).unwrap();
    assert_eq!(report.verdict, Verdict::Pass);
    assert!(report.removed.is_empty() && report.added.is_empty());
    assert_eq!((report.width, report.height, report.block_size), (64, 48, 8));
}

#[test]
fn added_content_needs_review() {
    let a = solid(64, 64, [255, 255, 255, 255]);
    let mut b = solid(64, 64, [255, 255, 255, 255]);
    paint(&mut b, 24, 24, 16, 16, [0, 0, 0, 255]);
    let report = diff_png(&png_bytes(&a), &png_bytes(&b), &PngDiffOptions::new()).unwrap();
    assert_eq!(report.verdict, Verdict::Review);
    assert!(report.removed.is_empty());
    assert_eq!(report.added, vec![Region { x: 24, y: 24, width: 16, height: 16, block_count: 4 }]);
    // Full mode finds the same region.
    let mut opts = PngDiffOptions::new();
    opts.mode = "full".to_string();
    let report = diff_png(&png_bytes(&a), &png_bytes(&b), &opts).unwrap();
    assert_eq!(report.added, vec![Region { x: 24, y: 24, width: 16, height: 16, block_count: 4 }]);
    // Smoothing absorbs the 2x2 cluster: each of its blocks sees 5 matched
    // blocks out of 9.
    opts.smooth = true;
    let report = diff_png(&png_bytes(&a), &png_bytes(&b), &opts).unwrap();
    assert_eq!(report.verdict, Verdict::Pass);
}

#[test]
fn wider_gap_only_merges() {
    let result = grid_with_unmatched(&[(0, 0), (2, 0), (5, 1), (1, 4), (4, 4), (7, 7), (6, 5)]);
    for g1 in 0..5u32 {
        for g2 in g1..6u32 {
            let narrow = result.unmatched_regions(g1, 1);
            let wide = result.unmatched_regions(g2, 1);
            assert!(wide.len() <= narrow.len());
            for a in &narrow {
                assert!(wide.iter().any(|b| b.x <= a.x
                    && a.x + a.width <= b.x + b.width
                    && b.y <= a.y
                    && a.y + a.height <= b.y + b.height
                    && a.block_count <= b.block_count));
            }
        }
    }
}

#[test]
fn huge_merge_gap_still_reports_changes() {
    let a = solid(64, 64, [255, 255, 255, 255]);
    let mut b = solid(64, 64, [255, 255, 255, 255]);
    paint(&mut b, 24, 24, 16, 16, [0, 0, 0, 255]);
    let mut opts = PngDiffOptions::new();
    opts.merge_gap = 1 << 31;
    let report = diff_png(&png_bytes(&a), &png_bytes(&b), &opts).unwrap();
    assert_eq!(report.verdict, Verdict::Review);
    assert_eq!(report.added, vec![Region { x: 24, y: 24, width: 16, height: 16, block_count: 4 }]);
}

#[test]
fn larger_min_blocks_only_filters() {
    let result = grid_with_unmatched(&[(0, 0), (1, 0), (4, 4), (6, 1), (6, 2), (7, 2)]);
    let all = result.unmatched_regions(0, 1);
    for m in 0..5u32 {
        let kept: Vec<Region> = all.iter().copied().filter(|r| r.block_count >= m.max(1)).collect();
        assert_eq!(result.unmatched_regions(0, m), kept);
    }
}

#[test]
fn undecodable_images_are_reported() {
    let good = png_bytes(&solid(8, 8, [0, 0, 0, 255]));
    match diff_png(&[1, 2, 3], &good, &PngDiffOptions::new()) {
        Err(PngDiffError::DecodeReference(msg)) => assert!(!msg.is_empty()),
        _ => panic!("expected a reference decoding error"),
    }
    match diff_png(&good, b"not an image", &PngDiffOptions::new()) {
        Err(PngDiffError::DecodeTarget(msg)) => assert!(!msg.is_empty()),
        _ => panic!("expected a target decoding error"),
    }
    match diff_png(&[], &[], &PngDiffOptions::new()) {
        Err(PngDiffError::DecodeReference(_)) => {},
        _ => panic!("expected a reference decoding error"),
    }
}

#[test]
fn verdict_names() {
    assert_eq!(Verdict::Pass.as_str(), "pass");
    assert_eq!(Verdict::Review.as_str(), "review");
}

#[test]
fn option_defaults() {
    let o = BlockMatchOptions::default();
    assert_eq!((o.block_size, o.search_x, o.search_y, o.step, o.threshold), (16, 32, 64, 1, 8));
    assert_eq!(o.mode, SearchMode::Full);
    assert!(!o.compute_confidence);
    assert_eq!(SearchMode::default(), SearchMode::Full);
    let r = RenderOptions::default();
    assert_eq!(r.style, HighlightStyle::Outline { stroke: 2 });
    assert_eq!((r.merge_gap, r.min_blocks, r.draw_vectors), (1, 1, false));
    assert_eq!(HighlightStyle::default(), HighlightStyle::Outline { stroke: 2 });
    let p = PngDiffOptions::new();
    assert_eq!((p.block_size, p.search_x, p.search_y, p.threshold), (8, 16, 64, 8));
    assert_eq!(p.mode, "fast");
    assert_eq!((p.merge_gap, p.min_blocks, p.smooth), (2, 2, false));
}

// ----- buffers -----

#[test]
fn buffer_round_trip() {
    assert!(RgbaBuffer::from_raw(2, 2, vec![0; 15]).is_none());
    let mut img = RgbaBuffer::from_raw(2, 2, vec![7; 16]).unwrap();
    assert_eq!(img.get_pixel(1, 1), [7, 7, 7, 7]);
    img.put_pixel(1, 0, [1, 2, 3, 4]);
    assert_eq!(img.get_pixel(1, 0), [1, 2, 3, 4]);
    assert_eq!(&img.as_raw()[4..8], &[1, 2, 3, 4]);
    let copy = img.duplicate();
    assert_eq!(copy.into_raw(), img.into_raw());
}

// ----- rendering -----

#[test]
fn blend_pixel_formula() {
    let mut img = solid(2, 2, [100, 0, 200, 7]);
    blend_pixel(&mut img, 1, 1, [200, 100, 0], 51);
    assert_eq!(img.get_pixel(1, 1), [120, 20, 160, 7]);
    assert_eq!(img.get_pixel(0, 1), [100, 0, 200, 7]);
}

#[test]
fn draw_line_joins_both_ends() {
    let mut img = solid(10, 10, [0, 0, 0, 255]);
    draw_line(&mut img, 0, 0, 9, 9, [255, 255, 255, 255]);
    for k in 0..10 {
        assert_eq!(img.get_pixel(k, k), [255, 255, 255, 255]);
    }
    assert_eq!(img.get_pixel(1, 0), [0, 0, 0, 255]);
    let mut img = solid(10, 10, [0, 0, 0, 255]);
    draw_line(&mut img, 9, 5, 0, 5, [1, 1, 1, 1]);
    for x in 0..10 {
        assert_eq!(img.get_pixel(x, 5), [1, 1, 1, 1]);
    }
    assert_eq!(img.get_pixel(0, 4), [0, 0, 0, 255]);
    // Points outside the image are skipped.
    let mut img = solid(4, 4, [0, 0, 0, 255]);
    draw_line(&mut img, -5, -5, 2, 2, [9, 9, 9, 9]);
    assert_eq!(img.get_pixel(0, 0), [9, 9, 9, 9]);
    assert_eq!(img.get_pixel(2, 2), [9, 9, 9, 9]);
    assert_eq!(img.get_pixel(3, 3), [0, 0, 0, 255]);
}

#[test]
fn draw_regions_outlines_clipped_boxes() {
    let mut img = solid(16, 16, [0, 0, 0, 255]);
    let regions = vec![
        Region { x: 4, y: 4, width: 8, height: 8, block_count: 1 },
        Region { x: 12, y: 12, width: 8, height: 8, block_count: 1 },
    ];
    let c = [255, 0, 255, 255];
    draw_regions(&mut img, &regions, c);
    assert_eq!(img.get_pixel(4, 4), c);
    assert_eq!(img.get_pixel(11, 4), c);
    assert_eq!(img.get_pixel(4, 11), c);
    assert_eq!(img.get_pixel(11, 7), c);
    assert_eq!(img.get_pixel(5, 5), [0, 0, 0, 255]);
    // The second box is clipped to the image: its far edges are at 15.
    assert_eq!(img.get_pixel(15, 13), c);
    assert_eq!(img.get_pixel(13, 15), c);
    assert_eq!(img.get_pixel(13, 13), [0, 0, 0, 255]);
}

#[test]
fn render_diff_outline_and_filled() {
    let base = solid(32, 32, [255, 255, 255, 255]);
    let mut result = diff(&base, &base, &opts8());
    result.vectors[(result.cols + 1) as usize].matched = false;
    let opts = RenderOptions { merge_gap: 0, ..Default::default() };
    let out = render_diff(&base, &result, [220, 50, 50], &opts, &Vec::new());
    assert_eq!(out.get_pixel(8, 8), [220, 50, 50, 255]);
    assert_eq!(out.get_pixel(9, 12), [220, 50, 50, 255]);
    assert_eq!(out.get_pixel(15, 15), [220, 50, 50, 255]);
    assert_eq!(out.get_pixel(11, 11), [255, 255, 255, 255]);
    assert_eq!(out.get_pixel(7, 7), [255, 255, 255, 255]);
    let filled = RenderOptions { style: HighlightStyle::Filled, merge_gap: 0, ..Default::default() };
    let out = render_diff(&base, &result, [220, 50, 50], &filled, &Vec::new());
    assert_eq!(out.get_pixel(11, 11), [241, 173, 173, 255]);
    assert_eq!(out.get_pixel(8, 15), [241, 173, 173, 255]);
    assert_eq!(out.get_pixel(16, 11), [255, 255, 255, 255]);
}

#[test]
fn draw_vectors_draws_from_block_centre() {
    let base = solid(32, 16, [0, 0, 0, 255]);
    let mut result = diff(&base, &base, &BlockMatchOptions { block_size: 16, ..Default::default() });
    result.vectors[0].dx = 16;
    let mut img = base.duplicate();
    draw_vectors(&mut img, &result, &vec![(15, 8), (0, 0)]);
    for x in 8..16 {
        assert_eq!(img.get_pixel(x, 8), [0, 255, 0, 255]);
    }
    assert_eq!(img.get_pixel(7, 8), [0, 0, 0, 255]);
    // The second block has no displacement: nothing is drawn there.
    assert_eq!(img.get_pixel(24, 8), [0, 0, 0, 255]);
    assert_eq!(img.get_pixel(0, 0), [0, 0, 0, 255]);
}

#[test]
fn render_bidirectional_places_panels() {
    let a = solid(16, 16, [255, 255, 255, 255]);
    let b = solid(24, 8, [255, 255, 255, 255]);
    let bd = diff_bidirectional(&a, &b, &opts8());
    let out = render_bidirectional(&a, &b, &bd, &RenderOptions::default(), &Vec::new(), &Vec::new());
    assert_eq!((out.width(), out.height()), (44, 16));
    assert_eq!(out.get_pixel(0, 0), [255, 255, 255, 255]);
    assert_eq!(out.get_pixel(15, 15), [255, 255, 255, 255]);
    assert_eq!(out.get_pixel(16, 0), [30, 30, 30, 255]);
    assert_eq!(out.get_pixel(19, 3), [30, 30, 30, 255]);
    assert_eq!(out.get_pixel(20, 0), [255, 255, 255, 255]);
    assert_eq!(out.get_pixel(43, 7), [255, 255, 255, 255]);
    assert_eq!(out.get_pixel(30, 10), [30, 30, 30, 255]);
}

#[test]
fn render_bidirectional_marks_removed_and_added() {
    let mut a = solid(32, 16, [255, 255, 255, 255]);
    paint(&mut a, 0, 0, 8, 8, [0, 0, 0, 255]);
    let mut b = solid(32, 16, [255, 255, 255, 255]);
    paint(&mut b, 24, 8, 8, 8, [0, 0, 255, 255]);
    let opts = BlockMatchOptions { block_size: 8, search_x: 4, search_y: 4, ..Default::default() };
    let bd = diff_bidirectional(&a, &b, &opts);
    let ropts = RenderOptions { merge_gap: 0, ..Default::default() };
    let out = render_bidirectional(&a, &b, &bd, &ropts, &Vec::new(), &Vec::new());
    assert_eq!((out.width(), out.height()), (68, 16));
    // Removed block outlined in red on the left panel.
    assert_eq!(out.get_pixel(0, 0), [220, 50, 50, 255]);
    // Added block outlined in green on the right panel (offset 36).
    assert_eq!(out.get_pixel(36 + 24, 8), [40, 180, 80, 255]);
    assert_eq!(out.get_pixel(36 + 28, 12), [0, 0, 255, 255]);
}

#[test]
fn heatmap_cap_and_levels() {
    let img = solid(32, 8, [255, 255, 255, 255]);
    let mut result = diff(&img, &img, &opts8());
    result.vectors[0].cost = 3;
    result.vectors[1].cost = 7;
    result.vectors[2].cost = u64::MAX;
    result.vectors[3].cost = 5;
    assert_eq!(heatmap_cap(&result, None), 7);
    assert_eq!(heatmap_cap(&result, Some(2)), 2);
    let zero = diff(&img, &img, &opts8());
    assert_eq!(heatmap_cap(&zero, None), 1);
    assert_eq!(heat_level(u64::MAX, 10), 10);
    assert_eq!(heat_level(4, 10), 4);
    assert_eq!(heat_level(15, 10), 10);
}

#[test]
fn render_heatmap_tints_blocks() {
    let base = solid(16, 8, [255, 255, 255, 255]);
    let result = diff(&base, &base, &opts8());
    let colors = vec![[255, 0, 0], [0, 0, 255]];
    let out = render_heatmap(&base, &result, &colors, 255);
    assert_eq!(out.get_pixel(0, 0), [255, 0, 0, 255]);
    assert_eq!(out.get_pixel(7, 7), [255, 0, 0, 255]);
    assert_eq!(out.get_pixel(8, 0), [0, 0, 255, 255]);
    let out = render_heatmap(&base, &result, &colors, 0);
    assert_eq!(out.get_pixel(3, 3), [255, 255, 255, 255]);
    let out = render_heatmap(&base, &result, &colors, 102);
    assert_eq!(out.get_pixel(1, 1), [255, 153, 153, 255]);
}
