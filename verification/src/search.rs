use vstd::prelude::*;
use crate::buffer::{ImageView, RgbaBuffer};
use crate::sad::{block_fits, block_sad, lemma_rows_sad_bounds, lemma_sad_until, sad_block};

verus! {

/// One block of the reference image together with the image it is searched
/// for in: its top-left corner `(rx, ry)` and side length `size`.
pub struct BlockSearch {
    pub reference: ImageView,
    pub target: ImageView,
    pub rx: int,
    pub ry: int,
    pub size: int,
}

impl BlockSearch {
    /// The SAD of the block against the target block displaced by
    /// `(dx, dy)`, or `u64::MAX` when that block leaves the target image.
    pub open spec fn cost(self, dx: int, dy: int) -> int {
        if block_fits(self.target, self.rx + dx, self.ry + dy, self.size) {
            block_sad(self.reference, self.target, self.rx, self.ry, self.rx + dx, self.ry + dy, self.size)
        } else {
            u64::MAX as int
        }
    }
}

/// What a search has found so far: the cheapest candidate, the first one
/// met at that cost.
pub struct SearchState {
    pub best_cost: int,
    pub best_dx: int,
    pub best_dy: int,
}

pub open spec fn abs_int(v: int) -> int {
    if v < 0 {
        -v
    } else {
        v
    }
}

/// Nothing seen yet: the cost is `u64::MAX`.
pub open spec fn initial_state() -> SearchState {
    SearchState { best_cost: u64::MAX as int, best_dx: 0, best_dy: 0 }
}

/// Displacement `(dx, dy)` differs from `(ax, ay)` by more than `sep` on
/// some axis.
pub open spec fn far_apart(sep: int, dx: int, dy: int, ax: int, ay: int) -> bool {
    abs_int(dx - ax) > sep || abs_int(dy - ay) > sep
}

/// Takes candidate `(dx, dy)` with the given cost into account: a
/// strictly lower cost becomes the best. A cost of `u64::MAX` (no
/// comparable block) is never taken.
pub open spec fn consider(s: SearchState, dx: int, dy: int, cost: int) -> SearchState {
    if cost < s.best_cost {
        SearchState { best_cost: cost, best_dx: dx, best_dy: dy }
    } else {
        s
    }
}

/// Evaluates displacement `(dx, dy)` and takes it into account.
pub open spec fn visit(search: BlockSearch, s: SearchState, dx: int, dy: int) -> SearchState {
    consider(s, dx, dy, search.cost(dx, dy))
}

/// Visits the candidates in order.
pub open spec fn visit_all(search: BlockSearch, s: SearchState, cands: Seq<(int, int)>) -> SearchState
    decreases cands.len(),
{
    if cands.len() == 0 {
        s
    } else {
        visit_all(search, visit(search, s, cands[0].0, cands[0].1), cands.drop_first())
    }
}

/// Displacements `(dx, dy), (dx + step, dy), …` up to `sx`, without `(0, 0)`.
pub open spec fn window_row(dy: int, dx: int, sx: int, step: int) -> Seq<(int, int)>
    decreases sx + step - dx,
{
    if step <= 0 || dx > sx {
        Seq::empty()
    } else if dx == 0 && dy == 0 {
        window_row(dy, dx + step, sx, step)
    } else {
        seq![(dx, dy)] + window_row(dy, dx + step, sx, step)
    }
}

/// The rows `dy, dy + step, …` up to `sy` of the search window
/// `[-sx, sx] × [-sy, sy]` sampled every `step`, in row-major order,
/// without `(0, 0)`.
pub open spec fn window_rows(dy: int, sy: int, sx: int, step: int) -> Seq<(int, int)>
    decreases sy + step - dy,
{
    if step <= 0 || dy > sy {
        Seq::empty()
    } else {
        window_row(dy, -sx, sx, step) + window_rows(dy + step, sy, sx, step)
    }
}

/// The state after the undisplaced block `(0, 0)`.
pub open spec fn start_state(search: BlockSearch) -> SearchState {
    visit(search, initial_state(), 0, 0)
}

/// Exhaustive search: `(0, 0)`, then every sampled displacement of the
/// window in row-major order.
pub open spec fn full_search(search: BlockSearch, sx: int, sy: int, step: int) -> SearchState {
    visit_all(search, start_state(search), window_rows(-sy, sy, sx, step))
}

/// Stride of the coarse scan: `max(sx, sy) / 8`, at least 1 and at most
/// the block size.
pub open spec fn coarse_stride(sx: int, sy: int, b: int) -> int {
    let m = (if sx >= sy { sx } else { sy }) / 8;
    let c = if m < 1 { 1 } else { m };
    if c > b { b } else { c }
}

/// The eight neighbors of a point, row by row.
pub open spec fn neighbor(k: int) -> (int, int) {
    if k < 3 {
        (k - 1, -1)
    } else if k == 3 {
        (-1, 0)
    } else if k == 4 {
        (1, 0)
    } else {
        (k - 6, 1)
    }
}

/// Visits neighbor `k` of the current best at distance `stride`, unless it
/// leaves the window.
pub open spec fn probe(search: BlockSearch, s: SearchState, sx: int, sy: int, stride: int, k: int) -> SearchState {
    let dx = s.best_dx + neighbor(k).0 * stride;
    let dy = s.best_dy + neighbor(k).1 * stride;
    if abs_int(dx) > sx || abs_int(dy) > sy {
        s
    } else {
        visit(search, s, dx, dy)
    }
}

/// Probes neighbors `k..8` in order; each probe is centred on the best
/// known at that moment.
pub open spec fn probe_ring(search: BlockSearch, s: SearchState, sx: int, sy: int, stride: int, k: int) -> SearchState
    decreases 8 - k,
{
    if k >= 8 {
        s
    } else {
        probe_ring(search, probe(search, s, sx, sy, stride, k), sx, sy, stride, k + 1)
    }
}

/// One ring of probes at `stride`, then again at half the stride, down to 1.
pub open spec fn refine(search: BlockSearch, s: SearchState, sx: int, sy: int, stride: int) -> SearchState
    decreases stride,
{
    let s2 = probe_ring(search, s, sx, sy, stride, 0);
    if stride <= 1 {
        s2
    } else {
        refine(search, s2, sx, sy, stride / 2)
    }
}

/// Where the rings of probes continue after a ring at `stride`.
pub open spec fn after_ring(search: BlockSearch, s: SearchState, sx: int, sy: int, stride: int) -> SearchState {
    if stride <= 1 {
        s
    } else {
        refine(search, s, sx, sy, stride / 2)
    }
}

/// Coarse scan of the window at the coarse stride, then logarithmic
/// refinement from half that stride.
pub open spec fn hierarchical_search(search: BlockSearch, sx: int, sy: int) -> SearchState {
    let coarse = coarse_stride(sx, sy, search.size);
    let s1 = visit_all(search, start_state(search), window_rows(-sy, sy, sx, coarse));
    refine(search, s1, sx, sy, if coarse / 2 < 1 { 1 } else { coarse / 2 })
}

/// The displacements a scan with stride `step` tries, in order: no
/// displacement, then the sampled window.
pub open spec fn scan_candidates(sx: int, sy: int, step: int) -> Seq<(int, int)> {
    seq![(0int, 0int)] + window_rows(-sy, sy, sx, step)
}

/// The lowest cost below `acc` among the candidates that lie farther than
/// the block size from `(bx, by)`, or `acc` when there is none.
pub open spec fn distinct_min(search: BlockSearch, cands: Seq<(int, int)>, bx: int, by: int, acc: int) -> int
    decreases cands.len(),
{
    if cands.len() == 0 {
        acc
    } else {
        let c = cands[0];
        let cost = search.cost(c.0, c.1);
        let acc2 = if far_apart(search.size, c.0, c.1, bx, by) && cost < acc {
            cost
        } else {
            acc
        };
        distinct_min(search, cands.drop_first(), bx, by, acc2)
    }
}

/// The runner-up cost that is reported for a search that ended in `s`
/// and evaluated the candidates `cands`: the lowest SAD among them that
/// lies farther than the block size from the best, `u64::MAX` when there
/// is none, and `u64::MAX` as well when a perfect match was found and no
/// confidence was asked for.
pub open spec fn reported_second(search: BlockSearch, s: SearchState, cands: Seq<(int, int)>, compute_confidence: bool) -> int {
    if !compute_confidence && s.best_cost == 0 {
        u64::MAX as int
    } else {
        distinct_min(search, cands, s.best_dx, s.best_dy, u64::MAX as int)
    }
}

/// The displacements that probes `k..8` of a ring at `stride` evaluate,
/// in order (probes leaving the window evaluate nothing).
pub open spec fn ring_probes(search: BlockSearch, s: SearchState, sx: int, sy: int, stride: int, k: int) -> Seq<(int, int)>
    decreases 8 - k,
{
    if k >= 8 {
        Seq::empty()
    } else {
        let dx = s.best_dx + neighbor(k).0 * stride;
        let dy = s.best_dy + neighbor(k).1 * stride;
        if abs_int(dx) > sx || abs_int(dy) > sy {
            ring_probes(search, s, sx, sy, stride, k + 1)
        } else {
            seq![(dx, dy)] + ring_probes(search, visit(search, s, dx, dy), sx, sy, stride, k + 1)
        }
    }
}

/// The displacements that the rings of probes from `stride` down to 1
/// evaluate, in order.
pub open spec fn refine_probes(search: BlockSearch, s: SearchState, sx: int, sy: int, stride: int) -> Seq<(int, int)>
    decreases stride,
{
    let here = ring_probes(search, s, sx, sy, stride, 0);
    if stride <= 1 {
        here
    } else {
        here + refine_probes(search, probe_ring(search, s, sx, sy, stride, 0), sx, sy, stride / 2)
    }
}

/// The displacements that the refinement of the hierarchical search
/// evaluates, in order.
pub open spec fn hierarchical_probes(search: BlockSearch, sx: int, sy: int) -> Seq<(int, int)> {
    let coarse = coarse_stride(sx, sy, search.size);
    let s1 = visit_all(search, start_state(search), window_rows(-sy, sy, sx, coarse));
    refine_probes(search, s1, sx, sy, if coarse / 2 < 1 { 1 } else { coarse / 2 })
}

/// Displacement pairs as mathematical integers.
pub open spec fn int_pairs(v: Seq<(i64, i64)>) -> Seq<(int, int)> {
    Seq::new(v.len(), |i: int| (v[i].0 as int, v[i].1 as int))
}

/// Taking the runner-up over two lists in turn is taking it over both.
pub proof fn lemma_distinct_min_concat(search: BlockSearch, a: Seq<(int, int)>, b: Seq<(int, int)>, bx: int, by: int, acc: int)
    ensures
        distinct_min(search, a + b, bx, by, acc) == distinct_min(search, b, bx, by, distinct_min(search, a, bx, by, acc)),
    decreases a.len(),
{
    if a.len() == 0 {
        assert(a + b =~= b);
    } else {
        let c = a[0];
        let cost = search.cost(c.0, c.1);
        let acc2 = if far_apart(search.size, c.0, c.1, bx, by) && cost < acc { cost } else { acc };
        assert((a + b)[0] == c);
        assert((a + b).drop_first() =~= a.drop_first() + b);
        lemma_distinct_min_concat(search, a.drop_first(), b, bx, by, acc2);
    }
}

// ----- invariants of search states -----

/// The cost is a cost, and the best displacement lies in the window
/// `[-sx, sx] × [-sy, sy]`.
pub open spec fn state_ok(s: SearchState, sx: int, sy: int) -> bool {
    &&& 0 <= s.best_cost <= u64::MAX
    &&& abs_int(s.best_dx) <= sx && abs_int(s.best_dy) <= sy
}

pub open spec fn search_ok(search: BlockSearch) -> bool {
    &&& search.reference.wf()
    &&& search.target.wf()
    &&& search.size >= 1
    &&& 765 * search.size * search.size <= u64::MAX
}

pub proof fn lemma_cost_range(search: BlockSearch, dx: int, dy: int)
    requires
        search_ok(search),
    ensures
        0 <= search.cost(dx, dy) <= u64::MAX,
{
    if block_fits(search.target, search.rx + dx, search.ry + dy, search.size) {
        lemma_rows_sad_bounds(
            search.reference,
            search.target,
            search.rx,
            search.ry,
            search.rx + dx,
            search.ry + dy,
            search.size,
            search.size,
        );
    }
}

pub proof fn lemma_visit_ok(search: BlockSearch, s: SearchState, sx: int, sy: int, dx: int, dy: int)
    requires
        search_ok(search),
        state_ok(s, sx, sy),
        abs_int(dx) <= sx,
        abs_int(dy) <= sy,
    ensures
        state_ok(visit(search, s, dx, dy), sx, sy),
        visit(search, s, dx, dy).best_cost <= s.best_cost,
{
    lemma_cost_range(search, dx, dy);
}

/// Once the best cost is 0 it never changes again.
pub proof fn lemma_visit_keeps_zero(search: BlockSearch, s: SearchState, dx: int, dy: int)
    requires
        search_ok(search),
        s.best_cost == 0,
    ensures
        visit(search, s, dx, dy).best_cost == 0,
        visit(search, s, dx, dy).best_dx == s.best_dx,
        visit(search, s, dx, dy).best_dy == s.best_dy,
{
    lemma_cost_range(search, dx, dy);
}

pub proof fn lemma_visit_all_keeps_zero(search: BlockSearch, s: SearchState, cands: Seq<(int, int)>)
    requires
        search_ok(search),
        s.best_cost == 0,
    ensures
        visit_all(search, s, cands).best_cost == 0,
        visit_all(search, s, cands).best_dx == s.best_dx,
        visit_all(search, s, cands).best_dy == s.best_dy,
    decreases cands.len(),
{
    if cands.len() > 0 {
        lemma_visit_keeps_zero(search, s, cands[0].0, cands[0].1);
        lemma_visit_all_keeps_zero(search, visit(search, s, cands[0].0, cands[0].1), cands.drop_first());
    }
}

pub proof fn lemma_probe_ring_keeps_zero(search: BlockSearch, s: SearchState, sx: int, sy: int, stride: int, k: int)
    requires
        search_ok(search),
        s.best_cost == 0,
    ensures
        probe_ring(search, s, sx, sy, stride, k).best_cost == 0,
        probe_ring(search, s, sx, sy, stride, k).best_dx == s.best_dx,
        probe_ring(search, s, sx, sy, stride, k).best_dy == s.best_dy,
    decreases 8 - k,
{
    if k < 8 {
        let dx = s.best_dx + neighbor(k).0 * stride;
        let dy = s.best_dy + neighbor(k).1 * stride;
        lemma_visit_keeps_zero(search, s, dx, dy);
        lemma_probe_ring_keeps_zero(search, probe(search, s, sx, sy, stride, k), sx, sy, stride, k + 1);
    }
}

pub proof fn lemma_refine_keeps_zero(search: BlockSearch, s: SearchState, sx: int, sy: int, stride: int)
    requires
        search_ok(search),
        s.best_cost == 0,
    ensures
        refine(search, s, sx, sy, stride).best_cost == 0,
        refine(search, s, sx, sy, stride).best_dx == s.best_dx,
        refine(search, s, sx, sy, stride).best_dy == s.best_dy,
    decreases stride,
{
    lemma_probe_ring_keeps_zero(search, s, sx, sy, stride, 0);
    if stride > 1 {
        lemma_refine_keeps_zero(search, probe_ring(search, s, sx, sy, stride, 0), sx, sy, stride / 2);
    }
}

/// Every displacement of a window row lies between `dx` and `sx` on row `dy`.
pub proof fn lemma_window_row_in(dy: int, dx: int, sx: int, step: int)
    ensures
        forall|k: int|
            0 <= k < window_row(dy, dx, sx, step).len() ==> dx <= #[trigger] window_row(dy, dx, sx, step)[k].0 <= sx
                && window_row(dy, dx, sx, step)[k].1 == dy && !(window_row(dy, dx, sx, step)[k].0 == 0 && window_row(
                dy,
                dx,
                sx,
                step,
            )[k].1 == 0),
    decreases sx + step - dx,
{
    if step > 0 && dx <= sx {
        lemma_window_row_in(dy, dx + step, sx, step);
        let rest = window_row(dy, dx + step, sx, step);
        if !(dx == 0 && dy == 0) {
            let w = seq![(dx, dy)] + rest;
            assert forall|k: int| 0 <= k < w.len() implies dx <= #[trigger] w[k].0 <= sx && w[k].1 == dy && !(w[k].0 == 0
                && w[k].1 == 0) by {
                if k > 0 {
                    assert(w[k] == rest[k - 1]);
                }
            }
        }
    }
}

/// Every displacement of the window rows from `dy` lies in
/// `[-sx, sx] × [dy, sy]` and is not `(0, 0)`.
pub proof fn lemma_window_rows_in(dy: int, sy: int, sx: int, step: int)
    ensures
        forall|k: int|
            0 <= k < window_rows(dy, sy, sx, step).len() ==> -sx <= #[trigger] window_rows(dy, sy, sx, step)[k].0 <= sx
                && dy <= window_rows(dy, sy, sx, step)[k].1 <= sy && !(window_rows(dy, sy, sx, step)[k].0 == 0
                && window_rows(dy, sy, sx, step)[k].1 == 0),
    decreases sy + step - dy,
{
    if step > 0 && dy <= sy {
        lemma_window_row_in(dy, -sx, sx, step);
        lemma_window_rows_in(dy + step, sy, sx, step);
        let a = window_row(dy, -sx, sx, step);
        let b = window_rows(dy + step, sy, sx, step);
        assert forall|k: int| 0 <= k < (a + b).len() implies -sx <= #[trigger] (a + b)[k].0 <= sx && dy <= (a
            + b)[k].1 <= sy && !((a + b)[k].0 == 0 && (a + b)[k].1 == 0) by {
            if k < a.len() {
                assert((a + b)[k] == a[k]);
            } else {
                assert((a + b)[k] == b[k - a.len()]);
            }
        }
    }
}

pub proof fn lemma_visit_all_ok(search: BlockSearch, s: SearchState, cands: Seq<(int, int)>, sx: int, sy: int)
    requires
        search_ok(search),
        state_ok(s, sx, sy),
        forall|k: int| 0 <= k < cands.len() ==> abs_int(#[trigger] cands[k].0) <= sx && abs_int(cands[k].1) <= sy,
    ensures
        state_ok(visit_all(search, s, cands), sx, sy),
        visit_all(search, s, cands).best_cost <= s.best_cost,
    decreases cands.len(),
{
    if cands.len() > 0 {
        let c = cands[0];
        lemma_visit_ok(search, s, sx, sy, c.0, c.1);
        assert forall|k: int| 0 <= k < cands.drop_first().len() implies abs_int(#[trigger] cands.drop_first()[k].0) <= sx
            && abs_int(cands.drop_first()[k].1) <= sy by {
            assert(cands.drop_first()[k] == cands[k + 1]);
        }
        lemma_visit_all_ok(search, visit(search, s, c.0, c.1), cands.drop_first(), sx, sy);
    }
}

pub proof fn lemma_probe_ring_ok(search: BlockSearch, s: SearchState, sx: int, sy: int, stride: int, k: int)
    requires
        search_ok(search),
        state_ok(s, sx, sy),
    ensures
        state_ok(probe_ring(search, s, sx, sy, stride, k), sx, sy),
        probe_ring(search, s, sx, sy, stride, k).best_cost <= s.best_cost,
    decreases 8 - k,
{
    if k < 8 {
        let dx = s.best_dx + neighbor(k).0 * stride;
        let dy = s.best_dy + neighbor(k).1 * stride;
        if !(abs_int(dx) > sx || abs_int(dy) > sy) {
            lemma_visit_ok(search, s, sx, sy, dx, dy);
        }
        lemma_probe_ring_ok(search, probe(search, s, sx, sy, stride, k), sx, sy, stride, k + 1);
    }
}

pub proof fn lemma_refine_ok(search: BlockSearch, s: SearchState, sx: int, sy: int, stride: int)
    requires
        search_ok(search),
        state_ok(s, sx, sy),
    ensures
        state_ok(refine(search, s, sx, sy, stride), sx, sy),
        refine(search, s, sx, sy, stride).best_cost <= s.best_cost,
    decreases stride,
{
    lemma_probe_ring_ok(search, s, sx, sy, stride, 0);
    if stride > 1 {
        lemma_refine_ok(search, probe_ring(search, s, sx, sy, stride, 0), sx, sy, stride / 2);
    }
}

pub proof fn lemma_start_ok(search: BlockSearch, sx: int, sy: int)
    requires
        search_ok(search),
        sx >= 0,
        sy >= 0,
    ensures
        state_ok(start_state(search), sx, sy),
        start_state(search).best_cost <= search.cost(0, 0),
{
    lemma_cost_range(search, 0, 0);
}

/// Both searches end in a well-formed state whose displacements lie in the
/// window and whose best cost is no worse than the undisplaced block's.
pub proof fn lemma_searches_ok(search: BlockSearch, sx: int, sy: int, step: int)
    requires
        search_ok(search),
        sx >= 0,
        sy >= 0,
        step >= 1,
    ensures
        state_ok(full_search(search, sx, sy, step), sx, sy),
        full_search(search, sx, sy, step).best_cost <= search.cost(0, 0),
        state_ok(hierarchical_search(search, sx, sy), sx, sy),
        hierarchical_search(search, sx, sy).best_cost <= search.cost(0, 0),
{
    lemma_start_ok(search, sx, sy);
    lemma_window_rows_in(-sy, sy, sx, step);
    lemma_visit_all_ok(search, start_state(search), window_rows(-sy, sy, sx, step), sx, sy);
    let coarse = coarse_stride(sx, sy, search.size);
    lemma_window_rows_in(-sy, sy, sx, coarse);
    lemma_visit_all_ok(search, start_state(search), window_rows(-sy, sy, sx, coarse), sx, sy);
    let s1 = visit_all(search, start_state(search), window_rows(-sy, sy, sx, coarse));
    lemma_refine_ok(search, s1, sx, sy, if coarse / 2 < 1 { 1 } else { coarse / 2 });
}

// ----- executable search -----

/// Coordinates handled by the search stay far inside `i64`.
pub open spec fn coord_ok(v: int) -> bool {
    -0x1_0000_0000 <= v <= 0x1_0000_0000
}

struct BestTracker {
    best_cost: u64,
    best_dx: i64,
    best_dy: i64,
}

impl BestTracker {
    spec fn state(&self) -> SearchState {
        SearchState { best_cost: self.best_cost as int, best_dx: self.best_dx as int, best_dy: self.best_dy as int }
    }

    spec fn coords_ok(&self) -> bool {
        &&& coord_ok(self.best_dx as int)
        &&& coord_ok(self.best_dy as int)
    }

    fn new() -> (t: Self)
        ensures
            t.state() == initial_state(),
            t.coords_ok(),
    {
        BestTracker { best_cost: u64::MAX, best_dx: 0, best_dy: 0 }
    }

    fn consider(&mut self, dx: i64, dy: i64, cost: u64)
        requires
            coord_ok(dx as int),
            coord_ok(dy as int),
        ensures
            final(self).state() == consider(old(self).state(), dx as int, dy as int, cost as int),
            old(self).coords_ok() ==> final(self).coords_ok(),
    {
        if cost < self.best_cost {
            self.best_cost = cost;
            self.best_dx = dx;
            self.best_dy = dy;
        }
    }
}

/// The parameters shared by every candidate of one block search.
pub open spec fn search_args_ok(
    reference: ImageView,
    target: ImageView,
    rx: u32,
    ry: u32,
    block_size: u32,
    search_x: i64,
    search_y: i64,
) -> bool {
    &&& reference.wf()
    &&& target.wf()
    &&& rx + block_size <= reference.width
    &&& ry + block_size <= reference.height
    &&& rx <= i32::MAX
    &&& ry <= i32::MAX
    &&& 1 <= block_size <= i32::MAX
    &&& 765 * block_size * block_size <= u64::MAX
    &&& 0 <= search_x <= i32::MAX
    &&& 0 <= search_y <= i32::MAX
}

pub open spec fn search_of(reference: ImageView, target: ImageView, rx: u32, ry: u32, block_size: u32) -> BlockSearch {
    BlockSearch { reference, target, rx: rx as int, ry: ry as int, size: block_size as int }
}

/// Evaluates candidate `(dx, dy)`, cutting the SAD short at the current
/// best cost, and feeds it to the tracker; the cut never changes the
/// tracker's new state.
fn visit_candidate(
    reference: &RgbaBuffer,
    target: &RgbaBuffer,
    rx: u32,
    ry: u32,
    block_size: u32,
    search_x: i64,
    search_y: i64,
    tracker: &mut BestTracker,
    dx: i64,
    dy: i64,
)
    requires
        search_args_ok(reference@, target@, rx, ry, block_size, search_x, search_y),
        old(tracker).coords_ok(),
        state_ok(old(tracker).state(), search_x as int, search_y as int),
        abs_int(dx as int) <= search_x,
        abs_int(dy as int) <= search_y,
    ensures
        final(tracker).state() == visit(
            search_of(reference@, target@, rx, ry, block_size),
            old(tracker).state(),
            dx as int,
            dy as int,
        ),
        final(tracker).coords_ok(),
        state_ok(final(tracker).state(), search_x as int, search_y as int),
{
    let ghost search = search_of(reference@, target@, rx, ry, block_size);
    let cutoff = tracker.best_cost;
    let tx = rx as i64 + dx;
    let ty = ry as i64 + dy;
    let cost = sad_block(reference, target, rx, ry, tx, ty, block_size, cutoff);
    proof {
        let s = tracker.state();
        let full = search.cost(dx as int, dy as int);
        lemma_cost_range(search, dx as int, dy as int);
        if block_fits(target@, tx as int, ty as int, block_size as int) {
            lemma_sad_until(
                reference@,
                target@,
                rx as int,
                ry as int,
                tx as int,
                ty as int,
                block_size as int,
                cutoff as int,
                0,
            );
            assert(consider(s, dx as int, dy as int, cost as int) == consider(s, dx as int, dy as int, full));
        }
        lemma_visit_ok(search, s, search_x as int, search_y as int, dx as int, dy as int);
    }
    tracker.consider(dx, dy, cost);
}

pub proof fn lemma_window_row_unfold(dy: int, dx: int, sx: int, step: int, rest: Seq<(int, int)>)
    requires
        step > 0,
        dx <= sx,
    ensures
        !(dx == 0 && dy == 0) ==> window_row(dy, dx, sx, step) + rest == seq![(dx, dy)] + (window_row(
            dy,
            dx + step,
            sx,
            step,
        ) + rest),
        (dx == 0 && dy == 0) ==> window_row(dy, dx, sx, step) + rest == window_row(dy, dx + step, sx, step) + rest,
{
    if !(dx == 0 && dy == 0) {
        assert(window_row(dy, dx, sx, step) + rest =~= seq![(dx, dy)] + (window_row(dy, dx + step, sx, step) + rest));
    }
}

/// Scans the window rows `dy, dy + step, …` and returns early on a perfect
/// match when no confidence is asked for; returns whether it did.
fn scan_window(
    reference: &RgbaBuffer,
    target: &RgbaBuffer,
    rx: u32,
    ry: u32,
    block_size: u32,
    search_x: i64,
    search_y: i64,
    step: i64,
    compute_confidence: bool,
    tracker: &mut BestTracker,
) -> (stopped: bool)
    requires
        search_args_ok(reference@, target@, rx, ry, block_size, search_x, search_y),
        1 <= step <= i32::MAX,
        old(tracker).coords_ok(),
        state_ok(old(tracker).state(), search_x as int, search_y as int),
        compute_confidence || old(tracker).best_cost != 0,
    ensures
        final(tracker).coords_ok(),
        state_ok(final(tracker).state(), search_x as int, search_y as int),
        !stopped ==> compute_confidence || final(tracker).best_cost != 0,
        ({
            let search = search_of(reference@, target@, rx, ry, block_size);
            let goal = visit_all(search, old(tracker).state(), window_rows(-search_y as int, search_y as int, search_x as int, step as int));
            &&& stopped ==> !compute_confidence && final(tracker).best_cost == 0
            &&& stopped ==> goal.best_cost == 0 && goal.best_dx == final(tracker).best_dx && goal.best_dy == final(tracker).best_dy
            &&& !stopped ==> final(tracker).state() == goal
        }),
{
    let ghost search = search_of(reference@, target@, rx, ry, block_size);
    let ghost goal = visit_all(search, tracker.state(), window_rows(-search_y as int, search_y as int, search_x as int, step as int));
    let mut dy: i64 = -search_y;
    while dy <= search_y
        invariant
            search_args_ok(reference@, target@, rx, ry, block_size, search_x, search_y),
            search == search_of(reference@, target@, rx, ry, block_size),
            1 <= step <= i32::MAX,
            -search_y <= dy <= search_y + step,
            tracker.coords_ok(),
            state_ok(tracker.state(), search_x as int, search_y as int),
            compute_confidence || tracker.best_cost != 0,
            goal == visit_all(search, old(tracker).state(), window_rows(-search_y as int, search_y as int, search_x as int, step as int)),
            goal == visit_all(search, tracker.state(), window_rows(dy as int, search_y as int, search_x as int, step as int)),
        decreases search_y + step - dy,
    {
        let ghost rows_rest = window_rows(dy + step, search_y as int, search_x as int, step as int);
        assert(window_rows(dy as int, search_y as int, search_x as int, step as int) == window_row(dy as int, -search_x as int, search_x as int, step as int) + rows_rest);
        let mut dx: i64 = -search_x;
        while dx <= search_x
            invariant
                search_args_ok(reference@, target@, rx, ry, block_size, search_x, search_y),
                search == search_of(reference@, target@, rx, ry, block_size),
                1 <= step <= i32::MAX,
                -search_y <= dy <= search_y,
                -search_x <= dx <= search_x + step,
                tracker.coords_ok(),
                    state_ok(tracker.state(), search_x as int, search_y as int),
                compute_confidence || tracker.best_cost != 0,
                goal == visit_all(search, old(tracker).state(), window_rows(-search_y as int, search_y as int, search_x as int, step as int)),
                rows_rest == window_rows(dy + step, search_y as int, search_x as int, step as int),
                goal == visit_all(search, tracker.state(), window_row(dy as int, dx as int, search_x as int, step as int) + rows_rest),
            decreases search_x + step - dx,
        {
            proof {
                lemma_window_row_unfold(dy as int, dx as int, search_x as int, step as int, rows_rest);
            }
            if !(dx == 0 && dy == 0) {
                let ghost rest = window_row(dy as int, dx + step, search_x as int, step as int) + rows_rest;
                assert((seq![(dx as int, dy as int)] + rest).drop_first() =~= rest);
                visit_candidate(reference, target, rx, ry, block_size, search_x, search_y, tracker, dx, dy);
                assert(goal == visit_all(search, tracker.state(), rest));
                if !compute_confidence && tracker.best_cost == 0 {
                    proof {
                        lemma_visit_all_keeps_zero(search, tracker.state(), rest);
                    }
                    return true;
                }
            }
            dx = dx + step;
        }
        assert(window_row(dy as int, dx as int, search_x as int, step as int) + rows_rest =~= rows_rest);
        dy = dy + step;
    }
    false
}

/// Lowers the runner-up `acc` to the SAD of candidate `(dx, dy)` when the
/// candidate lies farther than the block size from `(bx, by)` and its SAD
/// is lower; the SAD is cut short at `acc`, which never changes the outcome.
fn lower_runner(
    reference: &RgbaBuffer,
    target: &RgbaBuffer,
    rx: u32,
    ry: u32,
    block_size: u32,
    search_x: i64,
    search_y: i64,
    bx: i64,
    by: i64,
    dx: i64,
    dy: i64,
    acc: u64,
) -> (r: u64)
    requires
        search_args_ok(reference@, target@, rx, ry, block_size, search_x, search_y),
        abs_int(dx as int) <= search_x,
        abs_int(dy as int) <= search_y,
        abs_int(bx as int) <= search_x,
        abs_int(by as int) <= search_y,
    ensures
        ({
            let cost = search_of(reference@, target@, rx, ry, block_size).cost(dx as int, dy as int);
            r == if far_apart(block_size as int, dx as int, dy as int, bx as int, by as int) && cost < acc {
                cost
            } else {
                acc as int
            }
        }),
{
    let ghost search = search_of(reference@, target@, rx, ry, block_size);
    let ddx = if dx >= bx { dx - bx } else { bx - dx };
    let ddy = if dy >= by { dy - by } else { by - dy };
    let b = block_size as i64;
    if !(ddx > b || ddy > b) {
        return acc;
    }
    let tx = rx as i64 + dx;
    let ty = ry as i64 + dy;
    let c = sad_block(reference, target, rx, ry, tx, ty, block_size, acc);
    proof {
        lemma_cost_range(search, dx as int, dy as int);
        if block_fits(target@, tx as int, ty as int, block_size as int) {
            lemma_sad_until(
                reference@,
                target@,
                rx as int,
                ry as int,
                tx as int,
                ty as int,
                block_size as int,
                acc as int,
                0,
            );
        }
    }
    if c < acc {
        c
    } else {
        acc
    }
}

/// The lowest SAD among the displacements of a scan with stride `step`
/// (no displacement, then the sampled window) that lie farther than the
/// block size from `(bx, by)`; `u64::MAX` when there is none.
fn runner_up(
    reference: &RgbaBuffer,
    target: &RgbaBuffer,
    rx: u32,
    ry: u32,
    block_size: u32,
    search_x: i64,
    search_y: i64,
    step: i64,
    bx: i64,
    by: i64,
) -> (r: u64)
    requires
        search_args_ok(reference@, target@, rx, ry, block_size, search_x, search_y),
        1 <= step <= i32::MAX,
        abs_int(bx as int) <= search_x,
        abs_int(by as int) <= search_y,
    ensures
        r == distinct_min(
            search_of(reference@, target@, rx, ry, block_size),
            scan_candidates(search_x as int, search_y as int, step as int),
            bx as int,
            by as int,
            u64::MAX as int,
        ),
{
    let ghost search = search_of(reference@, target@, rx, ry, block_size);
    let ghost goal = distinct_min(
        search,
        scan_candidates(search_x as int, search_y as int, step as int),
        bx as int,
        by as int,
        u64::MAX as int,
    );
    let mut acc = lower_runner(reference, target, rx, ry, block_size, search_x, search_y, bx, by, 0, 0, u64::MAX);
    assert(scan_candidates(search_x as int, search_y as int, step as int).drop_first() =~= window_rows(
        -search_y as int,
        search_y as int,
        search_x as int,
        step as int,
    ));
    let mut dy: i64 = -search_y;
    while dy <= search_y
        invariant
            search_args_ok(reference@, target@, rx, ry, block_size, search_x, search_y),
            search == search_of(reference@, target@, rx, ry, block_size),
            1 <= step <= i32::MAX,
            abs_int(bx as int) <= search_x,
            abs_int(by as int) <= search_y,
            -search_y <= dy <= search_y + step,
            goal == distinct_min(search, window_rows(dy as int, search_y as int, search_x as int, step as int), bx as int, by as int, acc as int),
        decreases search_y + step - dy,
    {
        let ghost rows_rest = window_rows(dy + step, search_y as int, search_x as int, step as int);
        assert(window_rows(dy as int, search_y as int, search_x as int, step as int) == window_row(dy as int, -search_x as int, search_x as int, step as int) + rows_rest);
        let mut dx: i64 = -search_x;
        while dx <= search_x
            invariant
                search_args_ok(reference@, target@, rx, ry, block_size, search_x, search_y),
                search == search_of(reference@, target@, rx, ry, block_size),
                1 <= step <= i32::MAX,
                abs_int(bx as int) <= search_x,
                abs_int(by as int) <= search_y,
                -search_y <= dy <= search_y,
                -search_x <= dx <= search_x + step,
                rows_rest == window_rows(dy + step, search_y as int, search_x as int, step as int),
                goal == distinct_min(search, window_row(dy as int, dx as int, search_x as int, step as int) + rows_rest, bx as int, by as int, acc as int),
            decreases search_x + step - dx,
        {
            proof {
                lemma_window_row_unfold(dy as int, dx as int, search_x as int, step as int, rows_rest);
            }
            if !(dx == 0 && dy == 0) {
                let ghost rest = window_row(dy as int, dx + step, search_x as int, step as int) + rows_rest;
                assert((seq![(dx as int, dy as int)] + rest).drop_first() =~= rest);
                acc = lower_runner(reference, target, rx, ry, block_size, search_x, search_y, bx, by, dx, dy, acc);
            }
            dx = dx + step;
        }
        assert(window_row(dy as int, dx as int, search_x as int, step as int) + rows_rest =~= rows_rest);
        dy = dy + step;
    }
    acc
}

/// Exhaustive search of the window sampled every `step`, then the
/// runner-up among the same displacements.
pub fn search_full(
    reference: &RgbaBuffer,
    target: &RgbaBuffer,
    rx: u32,
    ry: u32,
    block_size: u32,
    search_x: i64,
    search_y: i64,
    step: i64,
    compute_confidence: bool,
) -> (res: (i64, i64, u64, u64))
    requires
        search_args_ok(reference@, target@, rx, ry, block_size, search_x, search_y),
        1 <= step <= i32::MAX,
    ensures
        ({
            let search = search_of(reference@, target@, rx, ry, block_size);
            let s = full_search(search, search_x as int, search_y as int, step as int);
            &&& res.0 == s.best_dx
            &&& res.1 == s.best_dy
            &&& res.2 == s.best_cost
            &&& res.3 == reported_second(search, s, scan_candidates(search_x as int, search_y as int, step as int), compute_confidence)
        }),
        abs_int(res.0 as int) <= search_x,
        abs_int(res.1 as int) <= search_y,
{
    let ghost search = search_of(reference@, target@, rx, ry, block_size);
    let ghost goal = full_search(search, search_x as int, search_y as int, step as int);
    let mut tracker = BestTracker::new();
    visit_candidate(reference, target, rx, ry, block_size, search_x, search_y, &mut tracker, 0, 0);
    if !compute_confidence && tracker.best_cost == 0 {
        proof {
            lemma_visit_all_keeps_zero(search, tracker.state(), window_rows(-search_y as int, search_y as int, search_x as int, step as int));
        }
        return (0, 0, 0, u64::MAX);
    }
    let stopped = scan_window(reference, target, rx, ry, block_size, search_x, search_y, step, compute_confidence, &mut tracker);
    if stopped {
        return (tracker.best_dx, tracker.best_dy, 0, u64::MAX);
    }
    let second = runner_up(reference, target, rx, ry, block_size, search_x, search_y, step, tracker.best_dx, tracker.best_dy);
    (tracker.best_dx, tracker.best_dy, tracker.best_cost, second)
}

pub(crate) fn neighbor_offset(k: usize) -> (o: (i64, i64))
    requires
        k < 8,
    ensures
        -1 <= o.0 <= 1,
        -1 <= o.1 <= 1,
        o.0 as int == neighbor(k as int).0,
        o.1 as int == neighbor(k as int).1,
{
    if k < 3 {
        (k as i64 - 1, -1)
    } else if k == 3 {
        (-1, 0)
    } else if k == 4 {
        (1, 0)
    } else {
        (k as i64 - 6, 1)
    }
}

/// One ring of eight probes at distance `stride` around the moving best;
/// returns early on a perfect match when no confidence is asked for.
fn probe_ring_exec(
    reference: &RgbaBuffer,
    target: &RgbaBuffer,
    rx: u32,
    ry: u32,
    block_size: u32,
    search_x: i64,
    search_y: i64,
    stride: i64,
    compute_confidence: bool,
    tracker: &mut BestTracker,
    probes: &mut Vec<(i64, i64)>,
) -> (stopped: bool)
    requires
        search_args_ok(reference@, target@, rx, ry, block_size, search_x, search_y),
        1 <= stride <= i32::MAX,
        old(tracker).coords_ok(),
        state_ok(old(tracker).state(), search_x as int, search_y as int),
        compute_confidence || old(tracker).best_cost != 0,
        forall|i: int| 0 <= i < old(probes)@.len() ==> abs_int(#[trigger] old(probes)@[i].0 as int) <= search_x && abs_int(old(probes)@[i].1 as int) <= search_y,
    ensures
        final(tracker).coords_ok(),
        state_ok(final(tracker).state(), search_x as int, search_y as int),
        !stopped ==> compute_confidence || final(tracker).best_cost != 0,
        forall|i: int| 0 <= i < final(probes)@.len() ==> abs_int(#[trigger] final(probes)@[i].0 as int) <= search_x && abs_int(final(probes)@[i].1 as int) <= search_y,
        ({
            let search = search_of(reference@, target@, rx, ry, block_size);
            let goal = probe_ring(search, old(tracker).state(), search_x as int, search_y as int, stride as int, 0);
            &&& stopped ==> !compute_confidence && final(tracker).best_cost == 0
            &&& stopped ==> goal.best_cost == 0 && goal.best_dx == final(tracker).best_dx && goal.best_dy == final(tracker).best_dy
            &&& !stopped ==> final(tracker).state() == goal
            &&& !stopped ==> int_pairs(final(probes)@) == int_pairs(old(probes)@) + ring_probes(
                search,
                old(tracker).state(),
                search_x as int,
                search_y as int,
                stride as int,
                0,
            )
        }),
{
    let ghost search = search_of(reference@, target@, rx, ry, block_size);
    let ghost goal = probe_ring(search, tracker.state(), search_x as int, search_y as int, stride as int, 0);
    let ghost all = int_pairs(probes@) + ring_probes(search, tracker.state(), search_x as int, search_y as int, stride as int, 0);
    let mut k: usize = 0;
    while k < 8
        invariant
            search_args_ok(reference@, target@, rx, ry, block_size, search_x, search_y),
            search == search_of(reference@, target@, rx, ry, block_size),
            1 <= stride <= i32::MAX,
            k <= 8,
            tracker.coords_ok(),
            state_ok(tracker.state(), search_x as int, search_y as int),
            compute_confidence || tracker.best_cost != 0,
            goal == probe_ring(search, old(tracker).state(), search_x as int, search_y as int, stride as int, 0),
            goal == probe_ring(search, tracker.state(), search_x as int, search_y as int, stride as int, k as int),
            all == int_pairs(old(probes)@) + ring_probes(search, old(tracker).state(), search_x as int, search_y as int, stride as int, 0),
            all == int_pairs(probes@) + ring_probes(search, tracker.state(), search_x as int, search_y as int, stride as int, k as int),
            forall|i: int| 0 <= i < probes@.len() ==> abs_int(#[trigger] probes@[i].0 as int) <= search_x && abs_int(probes@[i].1 as int) <= search_y,
        decreases 8 - k,
    {
        let (ox, oy) = neighbor_offset(k);
        assert(-stride <= ox * stride <= stride) by (nonlinear_arith)
            requires -1 <= ox <= 1, stride >= 1;
        assert(-stride <= oy * stride <= stride) by (nonlinear_arith)
            requires -1 <= oy <= 1, stride >= 1;
        let dx = tracker.best_dx + ox * stride;
        let dy = tracker.best_dy + oy * stride;
        let adx = if dx < 0 { -dx } else { dx };
        let ady = if dy < 0 { -dy } else { dy };
        if adx > search_x || ady > search_y {
        } else {
            let ghost before = tracker.state();
            let ghost old_pairs = int_pairs(probes@);
            visit_candidate(reference, target, rx, ry, block_size, search_x, search_y, tracker, dx, dy);
            probes.push((dx, dy));
            proof {
                let rest = ring_probes(search, tracker.state(), search_x as int, search_y as int, stride as int, k as int + 1);
                assert(int_pairs(probes@) =~= old_pairs.push((dx as int, dy as int)));
                assert(old_pairs + (seq![(dx as int, dy as int)] + rest) =~= old_pairs.push((dx as int, dy as int)) + rest);
            }
            if !compute_confidence && tracker.best_cost == 0 {
                proof {
                    lemma_probe_ring_keeps_zero(search, tracker.state(), search_x as int, search_y as int, stride as int, k as int + 1);
                }
                return true;
            }
        }
        k = k + 1;
    }
    proof {
        assert(int_pairs(probes@) + ring_probes(search, tracker.state(), search_x as int, search_y as int, stride as int, 8) =~= int_pairs(probes@));
    }
    false
}

/// Lowers the runner-up `acc` over the displacements `probes` in order.
fn lower_runner_over(
    reference: &RgbaBuffer,
    target: &RgbaBuffer,
    rx: u32,
    ry: u32,
    block_size: u32,
    search_x: i64,
    search_y: i64,
    bx: i64,
    by: i64,
    probes: &Vec<(i64, i64)>,
    acc: u64,
) -> (r: u64)
    requires
        search_args_ok(reference@, target@, rx, ry, block_size, search_x, search_y),
        abs_int(bx as int) <= search_x,
        abs_int(by as int) <= search_y,
        forall|i: int| 0 <= i < probes@.len() ==> abs_int(#[trigger] probes@[i].0 as int) <= search_x && abs_int(probes@[i].1 as int) <= search_y,
    ensures
        r == distinct_min(search_of(reference@, target@, rx, ry, block_size), int_pairs(probes@), bx as int, by as int, acc as int),
{
    let ghost search = search_of(reference@, target@, rx, ry, block_size);
    let ghost all = int_pairs(probes@);
    let ghost goal = distinct_min(search, all, bx as int, by as int, acc as int);
    let mut cur = acc;
    let mut i: usize = 0;
    assert(all.skip(0) =~= all);
    while i < probes.len()
        invariant
            search_args_ok(reference@, target@, rx, ry, block_size, search_x, search_y),
            search == search_of(reference@, target@, rx, ry, block_size),
            abs_int(bx as int) <= search_x,
            abs_int(by as int) <= search_y,
            forall|j: int| 0 <= j < probes@.len() ==> abs_int(#[trigger] probes@[j].0 as int) <= search_x && abs_int(probes@[j].1 as int) <= search_y,
            all == int_pairs(probes@),
            i <= probes@.len(),
            goal == distinct_min(search, all.skip(i as int), bx as int, by as int, cur as int),
        decreases probes@.len() - i,
    {
        let (dx, dy) = probes[i];
        assert(all.skip(i as int)[0] == (dx as int, dy as int));
        assert(all.skip(i as int).drop_first() =~= all.skip(i as int + 1));
        cur = lower_runner(reference, target, rx, ry, block_size, search_x, search_y, bx, by, dx, dy, cur);
        i = i + 1;
    }
    assert(all.skip(i as int) =~= Seq::<(int, int)>::empty());
    cur
}

/// Coarse uniform scan of the window followed by rings of probes around
/// the best so far at halving strides, then the runner-up among every
/// displacement evaluated: those of the coarse scan, then the probes.
pub fn search_hierarchical(
    reference: &RgbaBuffer,
    target: &RgbaBuffer,
    rx: u32,
    ry: u32,
    block_size: u32,
    search_x: i64,
    search_y: i64,
    compute_confidence: bool,
) -> (res: (i64, i64, u64, u64))
    requires
        search_args_ok(reference@, target@, rx, ry, block_size, search_x, search_y),
    ensures
        ({
            let search = search_of(reference@, target@, rx, ry, block_size);
            let s = hierarchical_search(search, search_x as int, search_y as int);
            let coarse = coarse_stride(search_x as int, search_y as int, block_size as int);
            &&& res.0 == s.best_dx
            &&& res.1 == s.best_dy
            &&& res.2 == s.best_cost
            &&& res.3 == reported_second(
                search,
                s,
                scan_candidates(search_x as int, search_y as int, coarse) + hierarchical_probes(search, search_x as int, search_y as int),
                compute_confidence,
            )
        }),
        abs_int(res.0 as int) <= search_x,
        abs_int(res.1 as int) <= search_y,
{
    let ghost search = search_of(reference@, target@, rx, ry, block_size);
    let ghost goal = hierarchical_search(search, search_x as int, search_y as int);
    let mut tracker = BestTracker::new();
    visit_candidate(reference, target, rx, ry, block_size, search_x, search_y, &mut tracker, 0, 0);
    let m = (if search_x >= search_y { search_x } else { search_y }) / 8;
    let c = if m < 1 { 1 } else { m };
    let coarse = if c > block_size as i64 { block_size as i64 } else { c };
    assert(coarse == coarse_stride(search_x as int, search_y as int, block_size as int));
    let ghost rows = window_rows(-search_y as int, search_y as int, search_x as int, coarse as int);
    let mut stride: i64 = if coarse / 2 < 1 { 1 } else { coarse / 2 };
    if !compute_confidence && tracker.best_cost == 0 {
        proof {
            lemma_visit_all_keeps_zero(search, tracker.state(), rows);
            lemma_refine_keeps_zero(search, visit_all(search, tracker.state(), rows), search_x as int, search_y as int, stride as int);
        }
        return (0, 0, 0, u64::MAX);
    }
    let stopped = scan_window(reference, target, rx, ry, block_size, search_x, search_y, coarse, compute_confidence, &mut tracker);
    if stopped {
        proof {
            lemma_refine_keeps_zero(search, visit_all(search, start_state(search), rows), search_x as int, search_y as int, stride as int);
        }
        return (tracker.best_dx, tracker.best_dy, 0, u64::MAX);
    }
    let ghost hprobes = hierarchical_probes(search, search_x as int, search_y as int);
    let mut probes: Vec<(i64, i64)> = Vec::new();
    assert(int_pairs(probes@) + refine_probes(search, tracker.state(), search_x as int, search_y as int, stride as int) =~= hprobes);
    loop
        invariant_except_break
            goal == refine(search, tracker.state(), search_x as int, search_y as int, stride as int),
            hprobes == int_pairs(probes@) + refine_probes(search, tracker.state(), search_x as int, search_y as int, stride as int),
        invariant
            search_args_ok(reference@, target@, rx, ry, block_size, search_x, search_y),
            search == search_of(reference@, target@, rx, ry, block_size),
            goal == hierarchical_search(search, search_x as int, search_y as int),
            hprobes == hierarchical_probes(search, search_x as int, search_y as int),
            1 <= stride <= i32::MAX,
            tracker.coords_ok(),
            state_ok(tracker.state(), search_x as int, search_y as int),
            compute_confidence || tracker.best_cost != 0,
            forall|i: int| 0 <= i < probes@.len() ==> abs_int(#[trigger] probes@[i].0 as int) <= search_x && abs_int(probes@[i].1 as int) <= search_y,
        ensures
            goal == tracker.state(),
            hprobes == int_pairs(probes@),
        decreases stride,
    {
        let ghost before = tracker.state();
        let ghost before_pairs = int_pairs(probes@);
        let stopped = probe_ring_exec(reference, target, rx, ry, block_size, search_x, search_y, stride, compute_confidence, &mut tracker, &mut probes);
        if stopped {
            proof {
                let ring = probe_ring(search, before, search_x as int, search_y as int, stride as int, 0);
                assert(goal == after_ring(search, ring, search_x as int, search_y as int, stride as int));
                if stride > 1 {
                    lemma_refine_keeps_zero(
                        search,
                        probe_ring(search, before, search_x as int, search_y as int, stride as int, 0),
                        search_x as int,
                        search_y as int,
                        stride / 2,
                    );
                }
            }
            return (tracker.best_dx, tracker.best_dy, 0, u64::MAX);
        }
        proof {
            let ring = ring_probes(search, before, search_x as int, search_y as int, stride as int, 0);
            if stride <= 1 {
                assert(hprobes == before_pairs + ring);
            } else {
                let next = refine_probes(search, tracker.state(), search_x as int, search_y as int, stride / 2);
                assert(hprobes == before_pairs + (ring + next));
                assert(before_pairs + (ring + next) =~= (before_pairs + ring) + next);
            }
        }
        if stride == 1 {
            break;
        }
        stride = stride / 2;
    }
    let scanned = runner_up(reference, target, rx, ry, block_size, search_x, search_y, coarse, tracker.best_dx, tracker.best_dy);
    let second = lower_runner_over(reference, target, rx, ry, block_size, search_x, search_y, tracker.best_dx, tracker.best_dy, &probes, scanned);
    proof {
        lemma_distinct_min_concat(
            search,
            scan_candidates(search_x as int, search_y as int, coarse as int),
            hprobes,
            tracker.best_dx as int,
            tracker.best_dy as int,
            u64::MAX as int,
        );
    }
    (tracker.best_dx, tracker.best_dy, tracker.best_cost, second)
}

} // verus!
