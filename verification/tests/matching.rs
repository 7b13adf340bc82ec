use img_block_match::block_match::{diff, BlockMatchOptions, MotionVector, Region, SearchMode};
use img_block_match::buffer::RgbaBuffer;
use img_block_match::pyramid::diff_pyramid;

fn solid(w: u32, h: u32, c: [u8; 4]) -> RgbaBuffer {
    RgbaBuffer::from_pixel(w, h, c)
}

/// `(second_cost - cost) / second_cost` clamped to `[0, 1]`, as a float.
fn confidence(mv: &MotionVector) -> f32 {
    let (num, den) = mv.confidence();
    (num as f64 / den as f64) as f32
}

#[test]
fn smooth_matched_removes_isolated_unmatched() {
    let img = solid(64, 64, [255, 255, 255, 255]);
    let opts = BlockMatchOptions {
        block_size: 8,
        ..Default::default()
    };
    let mut result = diff(&img, &img, &opts);
    // One isolated unmatched block in the middle of a matched field.
    let i = (3 * result.cols + 3) as usize;
    result.vectors[i].matched = false;
    assert_eq!(result.unmatched(), 1);
    result.smooth_matched();
    assert_eq!(result.unmatched(), 0, "isolated unmatched should be smoothed out");
}

#[test]
fn smooth_matched_keeps_genuine_cluster() {
    let img = solid(64, 64, [255, 255, 255, 255]);
    let opts = BlockMatchOptions {
        block_size: 8,
        ..Default::default()
    };
    let mut result = diff(&img, &img, &opts);
    // A 3x3 unmatched cluster.
    for y in 2..5 {
        for x in 2..5 {
            let i = (y * result.cols + x) as usize;
            result.vectors[i].matched = false;
        }
    }
    assert_eq!(result.unmatched(), 9);
    result.smooth_matched();
    // The center stays unmatched (5 of 9 neighbors are unmatched).
    let center = (3 * result.cols + 3) as usize;
    assert!(!result.vectors[center].matched);
}

#[test]
fn confidence_is_low_when_runner_is_close() {
    let mut a = solid(64, 64, [255, 255, 255, 255]);
    for y in 16..24 {
        for x in 16..24 {
            a.put_pixel(x, y, [180, 180, 180, 255]);
        }
    }
    let mut b = solid(64, 64, [255, 255, 255, 255]);
    // Drop the same gray patch at TWO distinct locations in `b`.
    for &(ox, oy) in &[(8u32, 8u32), (40, 40)] {
        for y in 0..8 {
            for x in 0..8 {
                b.put_pixel(ox + x, oy + y, [180, 180, 180, 255]);
            }
        }
    }
    let opts = BlockMatchOptions {
        block_size: 8,
        search_x: 32,
        search_y: 32,
        mode: SearchMode::Full,
        compute_confidence: true,
        ..Default::default()
    };
    let result = diff(&a, &b, &opts);
    let mv = result.get(2, 2);
    assert_eq!(mv.cost, 0);
    // Two equally-good matches exist far apart, so the runner-up cost
    // also hits 0 → confidence is 0.
    assert_eq!(confidence(mv), 0.0);
}

#[test]
fn confidence_is_high_on_unique_content() {
    let mut a = solid(64, 64, [255, 255, 255, 255]);
    for y in 16..24 {
        for x in 16..24 {
            a.put_pixel(x, y, [0, 200, 0, 255]);
        }
    }
    let mut b = solid(64, 64, [255, 255, 255, 255]);
    for y in 24..32 {
        for x in 32..40 {
            b.put_pixel(x, y, [0, 200, 0, 255]);
        }
    }
    let opts = BlockMatchOptions {
        block_size: 8,
        search_x: 24,
        search_y: 16,
        mode: SearchMode::Full,
        compute_confidence: true,
        ..Default::default()
    };
    let result = diff(&a, &b, &opts);
    // Block at (2, 2) in `a` is the green square; should find unique
    // match at (+16, +8).
    let mv = result.get(2, 2);
    assert_eq!(mv.cost, 0);
    assert!(confidence(mv) > 0.5, "expected high confidence, got {}", confidence(mv));
}

#[test]
fn identical_images_have_zero_cost_and_all_matched() {
    let img = solid(64, 64, [200, 100, 50, 255]);
    let result = diff(&img, &img, &BlockMatchOptions::default());
    assert!(result.vectors.iter().all(|v| v.matched && v.cost == 0));
}

#[test]
fn vertical_shift_is_recovered() {
    // Reference: a horizontal red stripe at y = 16..32.
    let mut a = solid(64, 64, [255, 255, 255, 255]);
    for y in 16..32 {
        for x in 0..64 {
            a.put_pixel(x, y, [255, 0, 0, 255]);
        }
    }
    // Target: same stripe shifted down by 16 px (y = 32..48).
    let mut b = solid(64, 64, [255, 255, 255, 255]);
    for y in 32..48 {
        for x in 0..64 {
            b.put_pixel(x, y, [255, 0, 0, 255]);
        }
    }
    let opts = BlockMatchOptions {
        block_size: 16,
        search_x: 0,
        search_y: 32,
        threshold: 0,
        mode: SearchMode::Full,
        ..Default::default()
    };
    let result = diff(&a, &b, &opts);
    let mv = result.get(0, 1);
    assert_eq!(mv.dy, 16);
    assert_eq!(mv.cost, 0);
    assert!(mv.matched);
}

#[test]
fn unmatched_regions_cluster_adjacent_blocks() {
    let img = solid(32, 32, [255, 255, 255, 255]);
    let mut result = diff(&img, &img, &BlockMatchOptions::default());
    let opts = BlockMatchOptions {
        block_size: 8,
        ..Default::default()
    };
    result = diff(&img, &img, &opts);
    for &(cx, cy) in &[(0u32, 0u32), (1, 0), (0, 1), (1, 1), (3, 3)] {
        let i = (cy * result.cols + cx) as usize;
        result.vectors[i].matched = false;
    }
    let regions = result.unmatched_regions(0, 1);
    assert_eq!(regions.len(), 2);
    assert_eq!(regions[0], Region { x: 0, y: 0, width: 16, height: 16, block_count: 4 });
    assert_eq!(regions[1], Region { x: 24, y: 24, width: 8, height: 8, block_count: 1 });
}

#[test]
fn unmatched_regions_merge_with_gap() {
    let img = solid(80, 16, [255, 255, 255, 255]);
    let opts = BlockMatchOptions {
        block_size: 8,
        ..Default::default()
    };
    let mut result = diff(&img, &img, &opts);
    // Two unmatched blocks separated by one matched block in the middle.
    for &(cx, cy) in &[(0u32, 0u32), (2, 0)] {
        let i = (cy * result.cols + cx) as usize;
        result.vectors[i].matched = false;
    }
    // merge_gap=0 -> two regions.
    assert_eq!(result.unmatched_regions(0, 1).len(), 2);
    // merge_gap=1 -> dilation bridges the gap -> one region spanning both.
    let merged = result.unmatched_regions(1, 1);
    assert_eq!(merged.len(), 1);
    assert_eq!(merged[0].x, 0);
    assert_eq!(merged[0].width, 24);
}

#[test]
fn hierarchical_search_recovers_diagonal_shift() {
    let mut a = solid(96, 96, [255, 255, 255, 255]);
    for y in 16..32 {
        for x in 16..32 {
            a.put_pixel(x, y, [0, 200, 0, 255]);
        }
    }
    // Shift +32 in x and +48 in y.
    let mut b = solid(96, 96, [255, 255, 255, 255]);
    for y in 64..80 {
        for x in 48..64 {
            b.put_pixel(x, y, [0, 200, 0, 255]);
        }
    }
    let opts = BlockMatchOptions {
        block_size: 16,
        search_x: 64,
        search_y: 64,
        threshold: 0,
        mode: SearchMode::Hierarchical,
        ..Default::default()
    };
    let result = diff(&a, &b, &opts);
    let mv = result.get(1, 1);
    assert_eq!(mv.dx, 32);
    assert_eq!(mv.dy, 48);
    assert_eq!(mv.cost, 0);
}

#[test]
fn horizontal_shift_is_recovered() {
    let mut a = solid(64, 64, [255, 255, 255, 255]);
    for y in 0..64 {
        for x in 16..32 {
            a.put_pixel(x, y, [0, 0, 255, 255]);
        }
    }
    let mut b = solid(64, 64, [255, 255, 255, 255]);
    for y in 0..64 {
        for x in 32..48 {
            b.put_pixel(x, y, [0, 0, 255, 255]);
        }
    }
    let opts = BlockMatchOptions {
        block_size: 16,
        search_x: 32,
        search_y: 0,
        threshold: 0,
        mode: SearchMode::Full,
        ..Default::default()
    };
    let result = diff(&a, &b, &opts);
    let mv = result.get(1, 0);
    assert_eq!(mv.dx, 16);
    assert_eq!(mv.cost, 0);
    assert!(mv.matched);
}

#[test]
fn pyramid_recovers_large_shift() {
    let w = 256u32;
    let h = 256u32;
    let mut a = RgbaBuffer::from_pixel(w, h, [255, 255, 255, 255]);
    for y in 32..64 {
        for x in 32..64 {
            a.put_pixel(x, y, [0, 200, 0, 255]);
        }
    }
    let mut b = RgbaBuffer::from_pixel(w, h, [255, 255, 255, 255]);
    // Shifted +96 px in both axes.
    for y in 128..160 {
        for x in 128..160 {
            b.put_pixel(x, y, [0, 200, 0, 255]);
        }
    }
    let opts = BlockMatchOptions {
        block_size: 16,
        search_x: 128,
        search_y: 128,
        threshold: 0,
        mode: SearchMode::Hierarchical,
        ..Default::default()
    };
    let result = diff_pyramid(&a, &b, &opts, 4, 16);
    let mv = result.get(2, 2);
    assert_eq!(mv.cost, 0);
    assert_eq!(mv.dx, 96);
    assert_eq!(mv.dy, 96);
}
