use vstd::prelude::*;
use crate::buffer::{ImageView, RgbaBuffer};
use crate::search::{
    coarse_stride, full_search, hierarchical_probes, hierarchical_search, reported_second, scan_candidates, search_full, search_hierarchical, search_of,
    BlockSearch, SearchState,
};

verus! {

/// Strategy for exploring the search window.
#[derive(Debug, Clone, Copy, PartialEq, Eq, Structural)]
pub enum SearchMode {
    /// Exhaustive search over every candidate of the window (`step` honored).
    Full,
    /// A coarse uniform scan of the window with stride
    /// `max(1, max(search_x, search_y) / 8)` (at most the block size),
    /// followed by rings of 3×3 probes around the best hit at halving
    /// strides down to 1.
    Hierarchical,
}

impl Default for SearchMode {
    fn default() -> (m: SearchMode)
        ensures
            m == SearchMode::Full,
    {
        SearchMode::Full
    }
}

#[derive(Debug, Clone)]
pub struct BlockMatchOptions {
    /// Side length of each square block in pixels (0 is taken as 1).
    pub block_size: u32,
    /// Horizontal search radius in pixels: dx ∈ [-search_x, +search_x]
    /// (negative is taken as 0).
    pub search_x: i32,
    /// Vertical search radius in pixels: dy ∈ [-search_y, +search_y].
    pub search_y: i32,
    /// Step between candidate displacements in [`SearchMode::Full`]
    /// (0 is taken as 1).
    pub step: u32,
    /// Per-channel, per-pixel SAD allowed for a block to count as matched.
    pub threshold: u32,
    /// Which search strategy to use within the window.
    pub mode: SearchMode,
    /// When true, the runner-up cost is reported even for perfect matches
    /// (otherwise a perfect match stops the search and reports none).
    pub compute_confidence: bool,
}

impl Default for BlockMatchOptions {
    fn default() -> (o: BlockMatchOptions)
        ensures
            o.block_size == 16,
            o.search_x == 32,
            o.search_y == 64,
            o.step == 1,
            o.threshold == 8,
            o.mode == SearchMode::Full,
            !o.compute_confidence,
    {
        BlockMatchOptions {
            block_size: 16,
            search_x: 32,
            search_y: 64,
            step: 1,
            threshold: 8,
            mode: SearchMode::Full,
            compute_confidence: false,
        }
    }
}

#[derive(Debug, Clone, Copy)]
pub struct MotionVector {
    pub dx: i32,
    pub dy: i32,
    /// Total SAD over the block (R, G and B of every pixel).
    pub cost: u64,
    /// Lowest SAD among the displacements the search evaluated (no
    /// displacement and every `step`-th displacement of the window in full
    /// mode; the coarse scan and every refinement probe in hierarchical
    /// mode) that lie farther than the block size from `(dx, dy)` on some
    /// axis; `u64::MAX` if there is none, or if a perfect match ended the
    /// search without confidence being asked for.
    pub second_cost: u64,
    /// True if `cost` is at or below the per-block threshold.
    pub matched: bool,
}

impl MotionVector {
    /// The match confidence `(second_cost - cost) / second_cost` clamped to
    /// `[0, 1]`, as an exact fraction `(numerator, denominator)`: `(1, 1)`
    /// when there was no runner-up, `(0, 1)` when the runner-up is perfect.
    pub fn confidence(&self) -> (f: (u64, u64))
        ensures
            f == confidence_spec(*self),
    {
        if self.second_cost == u64::MAX {
            (1, 1)
        } else if self.second_cost == 0 {
            (0, 1)
        } else if self.cost >= self.second_cost {
            (0, self.second_cost)
        } else {
            (self.second_cost - self.cost, self.second_cost)
        }
    }
}

pub open spec fn confidence_spec(v: MotionVector) -> (u64, u64) {
    if v.second_cost == u64::MAX {
        (1, 1)
    } else if v.second_cost == 0 {
        (0, 1)
    } else if v.cost >= v.second_cost {
        (0, v.second_cost)
    } else {
        ((v.second_cost - v.cost) as u64, v.second_cost)
    }
}

#[derive(Debug, Clone)]
pub struct BlockMatchResult {
    pub block_size: u32,
    pub cols: u32,
    pub rows: u32,
    pub width: u32,
    pub height: u32,
    /// One vector per block, row-major: block `(col, row)` at
    /// `row * cols + col`.
    pub vectors: Vec<MotionVector>,
}

/// Pixel-space axis-aligned bounding box of a cluster of unmatched blocks.
#[derive(Debug, Clone, Copy, PartialEq, Eq, Structural)]
pub struct Region {
    pub x: u32,
    pub y: u32,
    pub width: u32,
    pub height: u32,
    /// How many block-grid cells make up this cluster.
    pub block_count: u32,
}

/// The results in both directions: `forward` flags blocks of the reference
/// that have no match in the target (removed content), `reverse` blocks of
/// the target with no match in the reference (added content).
#[derive(Debug, Clone)]
pub struct BidirectionalDiff {
    pub forward: BlockMatchResult,
    pub reverse: BlockMatchResult,
}

// ----- what `diff` computes -----

pub open spec fn effective_block(opts: BlockMatchOptions) -> int {
    if opts.block_size == 0 {
        1
    } else {
        opts.block_size as int
    }
}

pub open spec fn effective_step(opts: BlockMatchOptions) -> int {
    if opts.step == 0 {
        1
    } else {
        opts.step as int
    }
}

pub open spec fn radius(v: i32) -> int {
    if v < 0 {
        0
    } else {
        v as int
    }
}

pub open spec fn min_int(a: int, b: int) -> int {
    if a <= b {
        a
    } else {
        b
    }
}

/// Width of the compared area: the smaller of the two image widths.
pub open spec fn diff_width(r: ImageView, t: ImageView) -> int {
    min_int(r.width as int, t.width as int)
}

pub open spec fn diff_height(r: ImageView, t: ImageView) -> int {
    min_int(r.height as int, t.height as int)
}

pub open spec fn grid_cols(r: ImageView, t: ImageView, opts: BlockMatchOptions) -> int {
    diff_width(r, t) / effective_block(opts)
}

pub open spec fn grid_rows(r: ImageView, t: ImageView, opts: BlockMatchOptions) -> int {
    diff_height(r, t) / effective_block(opts)
}

/// Block SAD allowed for a match: `block² · 3 · threshold`.
pub open spec fn match_threshold(opts: BlockMatchOptions) -> int {
    effective_block(opts) * effective_block(opts) * 3 * opts.threshold
}

/// The search for block `(bx, by)`.
pub open spec fn block_search(r: ImageView, t: ImageView, opts: BlockMatchOptions, bx: int, by: int) -> BlockSearch {
    BlockSearch {
        reference: r,
        target: t,
        rx: bx * effective_block(opts),
        ry: by * effective_block(opts),
        size: effective_block(opts),
    }
}

/// Where the search of block `(bx, by)` ends, by mode.
pub open spec fn block_outcome(r: ImageView, t: ImageView, opts: BlockMatchOptions, bx: int, by: int) -> SearchState {
    let search = block_search(r, t, opts, bx, by);
    match opts.mode {
        SearchMode::Full => full_search(search, radius(opts.search_x), radius(opts.search_y), effective_step(opts)),
        SearchMode::Hierarchical => hierarchical_search(search, radius(opts.search_x), radius(opts.search_y)),
    }
}

/// The stride of the uniform scan of the window, by mode: `step` in full
/// mode, the coarse stride in hierarchical mode. The runner-up is taken
/// among the displacements of that scan.
pub open spec fn scan_step(opts: BlockMatchOptions) -> int {
    match opts.mode {
        SearchMode::Full => effective_step(opts),
        SearchMode::Hierarchical => coarse_stride(radius(opts.search_x), radius(opts.search_y), effective_block(opts)),
    }
}

/// The displacements the search of a block evaluates, whose runner-up is
/// reported: the uniform scan of the window (no displacement, then every
/// sampled one), followed in hierarchical mode by the refinement probes.
pub open spec fn runner_candidates(search: BlockSearch, opts: BlockMatchOptions) -> Seq<(int, int)> {
    let sx = radius(opts.search_x);
    let sy = radius(opts.search_y);
    match opts.mode {
        SearchMode::Full => scan_candidates(sx, sy, scan_step(opts)),
        SearchMode::Hierarchical => scan_candidates(sx, sy, scan_step(opts)) + hierarchical_probes(search, sx, sy),
    }
}

/// The motion vector reported for block `(bx, by)`.
pub open spec fn block_vector(r: ImageView, t: ImageView, opts: BlockMatchOptions, bx: int, by: int) -> MotionVector {
    let s = block_outcome(r, t, opts, bx, by);
    MotionVector {
        dx: s.best_dx as i32,
        dy: s.best_dy as i32,
        cost: s.best_cost as u64,
        second_cost: reported_second(
            block_search(r, t, opts, bx, by),
            s,
            runner_candidates(block_search(r, t, opts, bx, by), opts),
            opts.compute_confidence,
        ) as u64,
        matched: s.best_cost <= match_threshold(opts),
    }
}

/// All motion vectors, row-major over the block grid.
pub open spec fn expected_vectors(r: ImageView, t: ImageView, opts: BlockMatchOptions) -> Seq<MotionVector> {
    let cols = grid_cols(r, t, opts);
    Seq::new(
        (cols * grid_rows(r, t, opts)) as nat,
        |i: int| block_vector(r, t, opts, i % cols, i / cols),
    )
}

/// The inputs `diff` handles: image sides that fit `i32` coordinates, a
/// threshold whose block total fits `u64`, block SADs that fit `u64`, and
/// a step that fits `i32` in full search.
pub open spec fn diff_supported(r: ImageView, t: ImageView, opts: BlockMatchOptions) -> bool {
    let b = effective_block(opts);
    &&& r.width <= i32::MAX
    &&& r.height <= i32::MAX
    &&& t.width <= i32::MAX
    &&& t.height <= i32::MAX
    &&& b * b * 3 <= u64::MAX
    &&& match_threshold(opts) <= u64::MAX
    &&& (b <= diff_width(r, t) && b <= diff_height(r, t)) ==> 765 * b * b <= u64::MAX
    &&& opts.mode == SearchMode::Full ==> opts.step <= i32::MAX
}

impl BlockMatchResult {
    /// `vectors` holds one entry per grid cell.
    pub open spec fn wf(&self) -> bool {
        self.vectors@.len() == self.cols as int * self.rows as int
    }

    /// The vector of block `(col, row)`.
    pub fn get(&self, col: u32, row: u32) -> (v: &MotionVector)
        requires
            (row as int) * (self.cols as int) + (col as int) < self.vectors@.len(),
            (row as int) * (self.cols as int) + (col as int) <= u32::MAX,
        ensures
            *v == self.vectors@[row as int * self.cols as int + col as int],
    {
        &self.vectors[(row * self.cols + col) as usize]
    }

    /// Number of blocks that are not matched.
    pub fn unmatched(&self) -> (n: usize)
        ensures
            n == count_unmatched(self.vectors@),
    {
        let mut n: usize = 0;
        let mut i: usize = 0;
        while i < self.vectors.len()
            invariant
                i <= self.vectors@.len(),
                n == count_unmatched(self.vectors@.take(i as int)),
                n <= i,
            decreases self.vectors@.len() - i,
        {
            assert(self.vectors@.take(i as int + 1).drop_last() =~= self.vectors@.take(i as int));
            if !self.vectors[i].matched {
                n = n + 1;
            }
            i = i + 1;
        }
        assert(self.vectors@.take(i as int) =~= self.vectors@);
        n
    }
}

/// How many vectors are not matched.
pub open spec fn count_unmatched(vs: Seq<MotionVector>) -> int
    decreases vs.len(),
{
    if vs.len() == 0 {
        0
    } else {
        count_unmatched(vs.drop_last()) + if vs.last().matched {
            0int
        } else {
            1int
        }
    }
}

fn match_block(
    reference: &RgbaBuffer,
    target: &RgbaBuffer,
    opts: &BlockMatchOptions,
    block_size: u32,
    bx: u32,
    by: u32,
    search_x: i64,
    search_y: i64,
    step: i64,
    threshold_total: u64,
) -> (mv: MotionVector)
    requires
        diff_supported(reference@, target@, *opts),
        reference@.wf(),
        target@.wf(),
        block_size == effective_block(*opts),
        search_x == radius(opts.search_x),
        search_y == radius(opts.search_y),
        step == effective_step(*opts),
        threshold_total == match_threshold(*opts),
        bx < grid_cols(reference@, target@, *opts),
        by < grid_rows(reference@, target@, *opts),
    ensures
        mv == block_vector(reference@, target@, *opts, bx as int, by as int),
{
    let ghost b = block_size as int;
    proof {
        assert(bx * b + b <= diff_width(reference@, target@)) by (nonlinear_arith)
            requires bx < diff_width(reference@, target@) / b, b >= 1, diff_width(reference@, target@) >= 0;
        assert(by * b + b <= diff_height(reference@, target@)) by (nonlinear_arith)
            requires by < diff_height(reference@, target@) / b, b >= 1, diff_height(reference@, target@) >= 0;
        assert(b <= diff_width(reference@, target@)) by (nonlinear_arith)
            requires bx * b + b <= diff_width(reference@, target@), bx >= 0, b >= 1;
        assert(b <= diff_height(reference@, target@)) by (nonlinear_arith)
            requires by * b + b <= diff_height(reference@, target@), by >= 0, b >= 1;
        assert(bx * b >= 0 && by * b >= 0) by (nonlinear_arith)
            requires bx >= 0, by >= 0, b >= 1;
    }
    let rx = bx * block_size;
    let ry = by * block_size;
    assert(search_of(reference@, target@, rx, ry, block_size) == block_search(reference@, target@, *opts, bx as int, by as int));
    let res = match opts.mode {
        SearchMode::Full => search_full(reference, target, rx, ry, block_size, search_x, search_y, step, opts.compute_confidence),
        SearchMode::Hierarchical => search_hierarchical(reference, target, rx, ry, block_size, search_x, search_y, opts.compute_confidence),
    };
    MotionVector {
        dx: res.0 as i32,
        dy: res.1 as i32,
        cost: res.2,
        second_cost: res.3,
        matched: res.2 <= threshold_total,
    }
}

/// Block-matching diff: splits the common area of the two images into
/// `block_size`-sided blocks and, for each block of `reference`, searches
/// the window around its position in `target` for the lowest-SAD match.
pub fn diff(reference: &RgbaBuffer, target: &RgbaBuffer, opts: &BlockMatchOptions) -> (result: BlockMatchResult)
    requires
        diff_supported(reference@, target@, *opts),
    ensures
        result.block_size == effective_block(*opts),
        result.width == diff_width(reference@, target@),
        result.height == diff_height(reference@, target@),
        result.cols == grid_cols(reference@, target@, *opts),
        result.rows == grid_rows(reference@, target@, *opts),
        result.vectors@ == expected_vectors(reference@, target@, *opts),
        result.wf(),
{
    let block_size: u32 = if opts.block_size == 0 { 1 } else { opts.block_size };
    let rw = reference.width();
    let tw = target.width();
    let rh = reference.height();
    let th = target.height();
    let width = if rw <= tw { rw } else { tw };
    let height = if rh <= th { rh } else { th };
    let cols = width / block_size;
    let rows = height / block_size;
    let b64 = block_size as u64;
    let threshold_total: u64 = b64 * b64 * 3 * opts.threshold as u64;
    let step: i64 = if opts.step == 0 { 1 } else { opts.step as i64 };
    let search_x: i64 = if opts.search_x < 0 { 0 } else { opts.search_x as i64 };
    let search_y: i64 = if opts.search_y < 0 { 0 } else { opts.search_y as i64 };
    let ghost r = reference@;
    let ghost t = target@;
    let ghost expected = expected_vectors(r, t, *opts);
    let mut vectors: Vec<MotionVector> = Vec::new();
    let mut by: u32 = 0;
    while by < rows
        invariant
            r == reference@,
            t == target@,
            r.wf(),
            t.wf(),
            diff_supported(r, t, *opts),
            block_size == effective_block(*opts),
            cols == grid_cols(r, t, *opts),
            rows == grid_rows(r, t, *opts),
            search_x == radius(opts.search_x),
            search_y == radius(opts.search_y),
            step == effective_step(*opts),
            threshold_total == match_threshold(*opts),
            expected == expected_vectors(r, t, *opts),
            by <= rows,
            vectors@ =~= expected.take(by * cols),
        decreases rows - by,
    {
        let mut bx: u32 = 0;
        while bx < cols
            invariant
                r == reference@,
                t == target@,
                r.wf(),
                t.wf(),
                diff_supported(r, t, *opts),
                block_size == effective_block(*opts),
                cols == grid_cols(r, t, *opts),
                rows == grid_rows(r, t, *opts),
                search_x == radius(opts.search_x),
                search_y == radius(opts.search_y),
                step == effective_step(*opts),
                threshold_total == match_threshold(*opts),
                expected == expected_vectors(r, t, *opts),
                by < rows,
                bx <= cols,
                vectors@ =~= expected.take(by * cols + bx),
            decreases cols - bx,
        {
            let mv = match_block(reference, target, opts, block_size, bx, by, search_x, search_y, step, threshold_total);
            proof {
                let i = by * cols + bx;
                assert(i < cols * rows) by (nonlinear_arith)
                    requires bx < cols, by < rows, i == by * cols + bx;
                vstd::arithmetic::div_mod::lemma_fundamental_div_mod_converse(i, cols as int, by as int, bx as int);
                assert(expected[i] == mv);
            }
            vectors.push(mv);
            bx = bx + 1;
        }
        proof {
            assert(by * cols + cols == (by + 1) * cols) by (nonlinear_arith);
        }
        by = by + 1;
    }
    proof {
        assert(rows * cols == cols * rows) by (nonlinear_arith);
    }
    BlockMatchResult { block_size, cols, rows, width, height, vectors }
}

/// Runs [`diff`] in both directions.
pub fn diff_bidirectional(reference: &RgbaBuffer, target: &RgbaBuffer, opts: &BlockMatchOptions) -> (d: BidirectionalDiff)
    requires
        diff_supported(reference@, target@, *opts),
        diff_supported(target@, reference@, *opts),
    ensures
        d.forward.vectors@ == expected_vectors(reference@, target@, *opts),
        d.reverse.vectors@ == expected_vectors(target@, reference@, *opts),
        d.forward.block_size == effective_block(*opts),
        d.reverse.block_size == effective_block(*opts),
        d.forward.width == diff_width(reference@, target@),
        d.forward.height == diff_height(reference@, target@),
        d.reverse.width == diff_width(target@, reference@),
        d.reverse.height == diff_height(target@, reference@),
        d.forward.cols == grid_cols(reference@, target@, *opts),
        d.forward.rows == grid_rows(reference@, target@, *opts),
        d.reverse.cols == grid_cols(target@, reference@, *opts),
        d.reverse.rows == grid_rows(target@, reference@, *opts),
        d.forward.wf(),
        d.reverse.wf(),
{
    let forward = diff(reference, target, opts);
    let reverse = diff(target, reference, opts);
    BidirectionalDiff { forward, reverse }
}

} // verus!
