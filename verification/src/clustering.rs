use vstd::prelude::*;
use crate::block_match::{BlockMatchResult, MotionVector, Region};
use crate::search::{neighbor, neighbor_offset};

verus! {

/// Cell `c = (col, row)` lies in the `cols`×`rows` grid.
pub open spec fn in_grid(cols: int, rows: int, c: (int, int)) -> bool {
    0 <= c.0 < cols && 0 <= c.1 < rows
}

/// Row-major position of cell `c`.
pub open spec fn cell_index(cols: int, c: (int, int)) -> int {
    c.1 * cols + c.0
}

/// The flag of cell `c` in a row-major grid of flags.
pub open spec fn mask_at(m: Seq<bool>, cols: int, c: (int, int)) -> bool {
    m[cell_index(cols, c)]
}

/// Cell `a` comes before cell `b` in row-major order.
pub open spec fn rm_before(a: (int, int), b: (int, int)) -> bool {
    a.1 < b.1 || (a.1 == b.1 && a.0 < b.0)
}

pub open spec fn abs_i(v: int) -> int {
    if v < 0 {
        -v
    } else {
        v
    }
}

/// `a` and `b` differ by at most `r` on each axis.
pub open spec fn near(r: int, a: (int, int), b: (int, int)) -> bool {
    abs_i(a.0 - b.0) <= r && abs_i(a.1 - b.1) <= r
}

/// Cell `c` is within distance `r` (per axis) of a set flag of `m`.
pub open spec fn dilated_at(m: Seq<bool>, cols: int, rows: int, r: int, c: (int, int)) -> bool {
    exists|s: (int, int)| in_grid(cols, rows, s) && #[trigger] mask_at(m, cols, s) && near(r, s, c)
}

/// Like [`dilated_at`], counting only set flags before `pos` in row-major order.
pub open spec fn covered_before(m: Seq<bool>, cols: int, rows: int, r: int, c: (int, int), pos: (int, int)) -> bool {
    exists|s: (int, int)| in_grid(cols, rows, s) && rm_before(s, pos) && #[trigger] mask_at(m, cols, s) && near(r, s, c)
}

/// The dilation radius in blocks: the merge gap itself. A gap at least as
/// large as the grid reaches every cell.
pub open spec fn gap_radius(gap: u32) -> int {
    gap as int
}

proof fn lemma_index_in_grid(cols: int, rows: int, c: (int, int))
    requires
        in_grid(cols, rows, c),
    ensures
        0 <= cell_index(cols, c) < cols * rows,
{
    assert(0 <= c.1 * cols + c.0 < cols * rows) by (nonlinear_arith)
        requires 0 <= c.0 < cols, 0 <= c.1 < rows;
}

proof fn lemma_index_injective(cols: int, rows: int, a: (int, int), b: (int, int))
    requires
        in_grid(cols, rows, a),
        in_grid(cols, rows, b),
        a != b,
    ensures
        cell_index(cols, a) != cell_index(cols, b),
{
    if a.1 == b.1 {
    } else if a.1 < b.1 {
        assert(a.1 * cols + a.0 < b.1 * cols + b.0) by (nonlinear_arith)
            requires 0 <= a.0 < cols, 0 <= b.0, a.1 < b.1;
    } else {
        assert(b.1 * cols + b.0 < a.1 * cols + a.0) by (nonlinear_arith)
            requires 0 <= b.0 < cols, 0 <= a.0, b.1 < a.1;
    }
}

fn dilate(mask: &Vec<bool>, cols: i64, rows: i64, radius: u32) -> (out: Vec<bool>)
    requires
        mask@.len() == cols * rows,
        0 <= cols <= u32::MAX,
        0 <= rows <= u32::MAX,
        cols * rows <= i32::MAX,
    ensures
        out@.len() == cols * rows,
        forall|c: (int, int)|
            in_grid(cols as int, rows as int, c) ==> #[trigger] mask_at(out@, cols as int, c) == dilated_at(
                mask@,
                cols as int,
                rows as int,
                gap_radius(radius),
                c,
            ),
{
    let ghost m = mask@;
    let ghost gr = gap_radius(radius);
    if radius == 0 {
        let mut out: Vec<bool> = Vec::new();
        let mut i: usize = 0;
        while i < mask.len()
            invariant
                i <= m.len(),
                mask@ == m,
                out@ =~= m.take(i as int),
            decreases m.len() - i,
        {
            out.push(mask[i]);
            i = i + 1;
        }
        proof {
            assert(out@ =~= m);
            assert forall|c: (int, int)| in_grid(cols as int, rows as int, c) implies #[trigger] mask_at(
                out@,
                cols as int,
                c,
            ) == dilated_at(m, cols as int, rows as int, gr, c) by {
                if dilated_at(m, cols as int, rows as int, gr, c) {
                    let s = choose|s: (int, int)| in_grid(cols as int, rows as int, s) && #[trigger] mask_at(m, cols as int, s) && near(gr, s, c);
                    assert(s == c);
                }
                if mask_at(m, cols as int, c) {
                    assert(near(gr, c, c));
                }
            }
        }
        return out;
    }
    let r: i64 = radius as i64;
    let n: usize = (cols * rows) as usize;
    let mut out: Vec<bool> = Vec::new();
    let mut k: usize = 0;
    while k < n
        invariant
            k <= n,
            out@.len() == k,
            forall|j: int| 0 <= j < k ==> !#[trigger] out@[j],
        decreases n - k,
    {
        out.push(false);
        k = k + 1;
    }
    proof {
        assert forall|c: (int, int)| in_grid(cols as int, rows as int, c) implies #[trigger] mask_at(
            out@,
            cols as int,
            c,
        ) == covered_before(m, cols as int, rows as int, gr, c, (0, 0)) by {
            lemma_index_in_grid(cols as int, rows as int, c);
        }
    }
    let mut y: i64 = 0;
    while y < rows
        invariant
            mask@ == m,
            m.len() == cols * rows,
            0 <= cols <= u32::MAX,
            0 <= rows <= u32::MAX,
            cols * rows <= i32::MAX,
            r == gr,
            0 <= r <= u32::MAX,
            out@.len() == cols * rows,
            0 <= y <= rows,
            forall|c: (int, int)|
                in_grid(cols as int, rows as int, c) ==> #[trigger] mask_at(out@, cols as int, c) == covered_before(
                    m,
                    cols as int,
                    rows as int,
                    gr,
                    c,
                    (0, y as int),
                ),
        decreases rows - y,
    {
        let mut x: i64 = 0;
        while x < cols
            invariant
                mask@ == m,
                m.len() == cols * rows,
                0 <= cols <= u32::MAX,
                0 <= rows <= u32::MAX,
                cols * rows <= i32::MAX,
                r == gr,
                0 <= r <= u32::MAX,
                out@.len() == cols * rows,
                0 <= y < rows,
                0 <= x <= cols,
                forall|c: (int, int)|
                    in_grid(cols as int, rows as int, c) ==> #[trigger] mask_at(out@, cols as int, c) == covered_before(
                        m,
                        cols as int,
                        rows as int,
                        gr,
                        c,
                        (x as int, y as int),
                    ),
            decreases cols - x,
        {
            let ghost pos = (x as int, y as int);
            let ghost next = (x as int + 1, y as int);
            proof {
                lemma_index_in_grid(cols as int, rows as int, pos);
            }
            let pidx = (y * cols + x) as usize;
            assert(pidx == cell_index(cols as int, pos));
            let set = mask[pidx];
            assert(set == mask_at(m, cols as int, pos));
            let ghost before = out@;
            if set {
                let y0 = if y - r < 0 { 0 } else { y - r };
                let y1 = if y + r > rows - 1 { rows - 1 } else { y + r };
                let x0 = if x - r < 0 { 0 } else { x - r };
                let x1 = if x + r > cols - 1 { cols - 1 } else { x + r };
                let mut ny = y0;
                while ny <= y1
                    invariant
                        m.len() == cols * rows,
                        0 <= cols,
                        0 <= rows,
                        cols * rows <= i32::MAX,
                        out@.len() == cols * rows,
                        before.len() == cols * rows,
                        0 <= y0,
                        y1 < rows,
                        0 <= x0,
                        x1 < cols,
                        y0 <= ny,
                        ny <= y1 + 1 || y0 > y1,
                        y0 <= y1 ==> x0 <= x1 + 1,
                        forall|c: (int, int)|
                            in_grid(cols as int, rows as int, c) ==> #[trigger] mask_at(out@, cols as int, c) == (mask_at(
                                before,
                                cols as int,
                                c,
                            ) || (y0 <= c.1 < ny && x0 <= c.0 <= x1)),
                    decreases y1 + 1 - ny,
                {
                    let mut nx = x0;
                    while nx <= x1
                        invariant
                            m.len() == cols * rows,
                            0 <= cols,
                            0 <= rows,
                            cols * rows <= i32::MAX,
                            out@.len() == cols * rows,
                            before.len() == cols * rows,
                            0 <= y0 <= ny <= y1,
                            y1 < rows,
                            0 <= x0,
                            x1 < cols,
                            x0 <= nx <= x1 + 1,
                            forall|c: (int, int)|
                                in_grid(cols as int, rows as int, c) ==> #[trigger] mask_at(out@, cols as int, c) == (mask_at(
                                    before,
                                    cols as int,
                                    c,
                                ) || (y0 <= c.1 < ny && x0 <= c.0 <= x1) || (c.1 == ny && x0 <= c.0 < nx)),
                        decreases x1 + 1 - nx,
                    {
                        let ghost cell = (nx as int, ny as int);
                        proof {
                            lemma_index_in_grid(cols as int, rows as int, cell);
                            assert forall|c: (int, int)| in_grid(cols as int, rows as int, c) && c != cell implies cell_index(
                                cols as int,
                                c,
                            ) != cell_index(cols as int, cell) by {
                                lemma_index_injective(cols as int, rows as int, c, cell);
                            }
                        }
                        let ghost prev = out@;
                        let idx = (ny * cols + nx) as usize;
                        assert(idx == cell_index(cols as int, cell));
                        out.set(idx, true);
                        proof {
                            assert forall|c: (int, int)| in_grid(cols as int, rows as int, c) implies #[trigger] mask_at(
                                out@,
                                cols as int,
                                c,
                            ) == (mask_at(before, cols as int, c) || (y0 <= c.1 < ny && x0 <= c.0 <= x1) || (c.1 == ny
                                && x0 <= c.0 < nx + 1)) by {
                                if c != cell {
                                    lemma_index_injective(cols as int, rows as int, c, cell);
                                    lemma_index_in_grid(cols as int, rows as int, c);
                                    assert(mask_at(out@, cols as int, c) == mask_at(prev, cols as int, c));
                                }
                            }
                        }
                        nx = nx + 1;
                    }
                    ny = ny + 1;
                }
            }
            proof {
                assert forall|c: (int, int)| in_grid(cols as int, rows as int, c) implies #[trigger] mask_at(
                    out@,
                    cols as int,
                    c,
                ) == covered_before(m, cols as int, rows as int, gr, c, next) by {
                    if covered_before(m, cols as int, rows as int, gr, c, next) {
                        let s = choose|s: (int, int)| in_grid(cols as int, rows as int, s) && rm_before(s, next) && #[trigger] mask_at(m, cols as int, s) && near(gr, s, c);
                        if s != pos {
                            assert(covered_before(m, cols as int, rows as int, gr, c, pos));
                        }
                    }
                    if set && near(gr, pos, c) {
                        assert(covered_before(m, cols as int, rows as int, gr, c, next));
                    }
                    if covered_before(m, cols as int, rows as int, gr, c, pos) {
                        let s = choose|s: (int, int)| in_grid(cols as int, rows as int, s) && rm_before(s, pos) && #[trigger] mask_at(m, cols as int, s) && near(gr, s, c);
                        assert(covered_before(m, cols as int, rows as int, gr, c, next));
                    }
                }
            }
            x = x + 1;
        }
        proof {
            assert forall|c: (int, int)| in_grid(cols as int, rows as int, c) implies covered_before(
                m,
                cols as int,
                rows as int,
                gr,
                c,
                (cols as int, y as int),
            ) == covered_before(m, cols as int, rows as int, gr, c, (0, y + 1)) by {
                if covered_before(m, cols as int, rows as int, gr, c, (0, y + 1)) {
                    let s = choose|s: (int, int)| in_grid(cols as int, rows as int, s) && rm_before(s, (0, y + 1)) && #[trigger] mask_at(m, cols as int, s) && near(gr, s, c);
                    assert(covered_before(m, cols as int, rows as int, gr, c, (cols as int, y as int)));
                }
                if covered_before(m, cols as int, rows as int, gr, c, (cols as int, y as int)) {
                    let s = choose|s: (int, int)| in_grid(cols as int, rows as int, s) && rm_before(s, (cols as int, y as int)) && #[trigger] mask_at(m, cols as int, s) && near(gr, s, c);
                    assert(covered_before(m, cols as int, rows as int, gr, c, (0, y + 1)));
                }
            }
        }
        y = y + 1;
    }
    proof {
        assert forall|c: (int, int)| in_grid(cols as int, rows as int, c) implies #[trigger] mask_at(
            out@,
            cols as int,
            c,
        ) == dilated_at(m, cols as int, rows as int, gr, c) by {
            if dilated_at(m, cols as int, rows as int, gr, c) {
                let s = choose|s: (int, int)| in_grid(cols as int, rows as int, s) && #[trigger] mask_at(m, cols as int, s) && near(gr, s, c);
                assert(covered_before(m, cols as int, rows as int, gr, c, (0, rows as int)));
            }
        }
    }
    out
}

// ----- connectivity -----

/// `a` and `b` are distinct 8-neighbors.
pub open spec fn adjacent(a: (int, int), b: (int, int)) -> bool {
    a != b && abs_i(a.0 - b.0) <= 1 && abs_i(a.1 - b.1) <= 1
}

/// `p` is a non-empty walk through 8-adjacent grid cells whose flags in
/// `d` are all set.
pub open spec fn is_path(d: Seq<bool>, cols: int, rows: int, p: Seq<(int, int)>) -> bool
    decreases p.len(),
{
    &&& p.len() >= 1
    &&& in_grid(cols, rows, p[0])
    &&& mask_at(d, cols, p[0])
    &&& p.len() >= 2 ==> adjacent(p[0], p[1]) && is_path(d, cols, rows, p.drop_first())
}

/// Some path through set flags of `d` leads from `a` to `b`.
pub open spec fn connected(d: Seq<bool>, cols: int, rows: int, a: (int, int), b: (int, int)) -> bool {
    exists|p: Seq<(int, int)>| #[trigger] is_path(d, cols, rows, p) && p[0] == a && p.last() == b
}

proof fn lemma_path_ends(d: Seq<bool>, cols: int, rows: int, p: Seq<(int, int)>)
    requires
        is_path(d, cols, rows, p),
    ensures
        in_grid(cols, rows, p.last()),
        mask_at(d, cols, p.last()),
    decreases p.len(),
{
    if p.len() >= 2 {
        lemma_path_ends(d, cols, rows, p.drop_first());
    }
}

proof fn lemma_path_push(d: Seq<bool>, cols: int, rows: int, p: Seq<(int, int)>, c: (int, int))
    requires
        is_path(d, cols, rows, p),
        adjacent(p.last(), c),
        in_grid(cols, rows, c),
        mask_at(d, cols, c),
    ensures
        is_path(d, cols, rows, p.push(c)),
    decreases p.len(),
{
    let q = p.push(c);
    assert(q[0] == p[0]);
    if p.len() == 1 {
        assert(q.drop_first() =~= seq![c]);
        assert(is_path(d, cols, rows, seq![c]));
        assert(q[1] == c);
    } else {
        lemma_path_push(d, cols, rows, p.drop_first(), c);
        assert(q.drop_first() =~= p.drop_first().push(c));
        assert(q[1] == p[1]);
    }
}

pub proof fn lemma_connected_refl(d: Seq<bool>, cols: int, rows: int, a: (int, int))
    requires
        in_grid(cols, rows, a),
        mask_at(d, cols, a),
    ensures
        connected(d, cols, rows, a, a),
{
    let p = seq![a];
    assert(is_path(d, cols, rows, p));
}

pub proof fn lemma_connected_ends(d: Seq<bool>, cols: int, rows: int, a: (int, int), b: (int, int))
    requires
        connected(d, cols, rows, a, b),
    ensures
        in_grid(cols, rows, a),
        mask_at(d, cols, a),
        in_grid(cols, rows, b),
        mask_at(d, cols, b),
{
    let p = choose|p: Seq<(int, int)>| #[trigger] is_path(d, cols, rows, p) && p[0] == a && p.last() == b;
    lemma_path_ends(d, cols, rows, p);
}

pub proof fn lemma_connected_extend(d: Seq<bool>, cols: int, rows: int, a: (int, int), b: (int, int), c: (int, int))
    requires
        connected(d, cols, rows, a, b),
        adjacent(b, c),
        in_grid(cols, rows, c),
        mask_at(d, cols, c),
    ensures
        connected(d, cols, rows, a, c),
{
    let p = choose|p: Seq<(int, int)>| #[trigger] is_path(d, cols, rows, p) && p[0] == a && p.last() == b;
    lemma_path_push(d, cols, rows, p, c);
    assert(p.push(c)[0] == a);
    assert(is_path(d, cols, rows, p.push(c)));
}

/// A set of cells closed under stepping to a set 8-neighbor contains the
/// end of every path that starts in it.
proof fn lemma_path_stays_in(d: Seq<bool>, cols: int, rows: int, p: Seq<(int, int)>, s: Set<(int, int)>)
    requires
        is_path(d, cols, rows, p),
        s.contains(p[0]),
        forall|a: (int, int), b: (int, int)|
            #![trigger s.contains(a), adjacent(a, b)]
            s.contains(a) && adjacent(a, b) && in_grid(cols, rows, b) && mask_at(d, cols, b) ==> s.contains(b),
    ensures
        s.contains(p.last()),
    decreases p.len(),
{
    if p.len() >= 2 {
        let q = p.drop_first();
        assert(is_path(d, cols, rows, q));
        assert(in_grid(cols, rows, q[0]) && mask_at(d, cols, q[0]));
        assert(adjacent(p[0], p[1]));
        assert(s.contains(q[0]));
        lemma_path_stays_in(d, cols, rows, q, s);
    }
}

/// Visited cells are closed under stepping to a set 8-neighbor.
pub open spec fn visited_closed(d: Seq<bool>, v: Seq<bool>, cols: int, rows: int) -> bool {
    forall|a: (int, int), b: (int, int)|
        #![trigger mask_at(v, cols, a), adjacent(a, b)]
        in_grid(cols, rows, a) && in_grid(cols, rows, b) && mask_at(v, cols, a) && adjacent(a, b) && mask_at(d, cols, b)
            ==> mask_at(v, cols, b)
}

/// The cells reachable from `start` through set flags of `d` whose flag in
/// `u` is set.
pub open spec fn cluster(d: Seq<bool>, u: Seq<bool>, cols: int, rows: int, start: (int, int)) -> Set<(int, int)> {
    Set::new(|c: (int, int)| connected(d, cols, rows, start, c) && mask_at(u, cols, c))
}

pub open spec fn lowest_col(s: Set<(int, int)>, v: int) -> bool {
    (exists|c: (int, int)| #[trigger] s.contains(c) && c.0 == v) && forall|c: (int, int)| #[trigger] s.contains(c) ==> v <= c.0
}

pub open spec fn highest_col(s: Set<(int, int)>, v: int) -> bool {
    (exists|c: (int, int)| #[trigger] s.contains(c) && c.0 == v) && forall|c: (int, int)| #[trigger] s.contains(c) ==> c.0 <= v
}

pub open spec fn lowest_row(s: Set<(int, int)>, v: int) -> bool {
    (exists|c: (int, int)| #[trigger] s.contains(c) && c.1 == v) && forall|c: (int, int)| #[trigger] s.contains(c) ==> v <= c.1
}

pub open spec fn highest_row(s: Set<(int, int)>, v: int) -> bool {
    (exists|c: (int, int)| #[trigger] s.contains(c) && c.1 == v) && forall|c: (int, int)| #[trigger] s.contains(c) ==> c.1 <= v
}

/// Number of unset flags.
pub open spec fn count_false(s: Seq<bool>) -> int
    decreases s.len(),
{
    if s.len() == 0 {
        0
    } else {
        count_false(s.drop_last()) + if s.last() {
            0int
        } else {
            1int
        }
    }
}

proof fn lemma_count_false_bounds(s: Seq<bool>)
    ensures
        0 <= count_false(s) <= s.len(),
    decreases s.len(),
{
    if s.len() > 0 {
        lemma_count_false_bounds(s.drop_last());
    }
}

proof fn lemma_count_false_set(s: Seq<bool>, i: int)
    requires
        0 <= i < s.len(),
        !s[i],
    ensures
        count_false(s.update(i, true)) == count_false(s) - 1,
    decreases s.len(),
{
    if i < s.len() - 1 {
        assert(s.update(i, true).drop_last() =~= s.drop_last().update(i, true));
        lemma_count_false_set(s.drop_last(), i);
    } else {
        assert(s.update(i, true).drop_last() =~= s.drop_last());
    }
}

/// The stack holds cell `c`.
pub open spec fn stack_has(stack: Seq<(i64, i64)>, c: (int, int)) -> bool {
    exists|k: int| 0 <= k < stack.len() && #[trigger] stack[k] == (c.0 as i64, c.1 as i64)
}

/// The `k`-th 8-neighbor of `c`.
pub open spec fn neighbor_cell(c: (int, int), k: int) -> (int, int) {
    (c.0 + neighbor(k).0, c.1 + neighbor(k).1)
}

proof fn lemma_adjacent_is_neighbor(a: (int, int), b: (int, int)) -> (k: int)
    requires
        adjacent(a, b),
    ensures
        0 <= k < 8,
        b == neighbor_cell(a, k),
{
    let dx = b.0 - a.0;
    let dy = b.1 - a.1;
    if dy == -1 {
        dx + 1
    } else if dy == 0 {
        if dx == -1 {
            3
        } else {
            4
        }
    } else {
        dx + 6
    }
}

/// Pushes the 8-neighbors of `(cx, cy)` that lie in the grid.
fn push_neighbors(stack: &mut Vec<(i64, i64)>, cols: i64, rows: i64, cx: i64, cy: i64)
    requires
        0 <= cx < cols,
        0 <= cy < rows,
        cols <= u32::MAX,
        rows <= u32::MAX,
    ensures
        old(stack)@.len() <= final(stack)@.len() <= old(stack)@.len() + 8,
        forall|k: int| 0 <= k < old(stack)@.len() ==> #[trigger] final(stack)@[k] == old(stack)@[k],
        forall|k: int|
            old(stack)@.len() <= k < final(stack)@.len() ==> in_grid(
                cols as int,
                rows as int,
                (#[trigger] final(stack)@[k].0 as int, final(stack)@[k].1 as int),
            ) && adjacent((cx as int, cy as int), (final(stack)@[k].0 as int, final(stack)@[k].1 as int)),
        forall|b: (int, int)|
            in_grid(cols as int, rows as int, b) && adjacent((cx as int, cy as int), b) ==> stack_has(final(stack)@, b),
{
    let ghost c = (cx as int, cy as int);
    let ghost start_len = stack@.len();
    let mut k: usize = 0;
    while k < 8
        invariant
            0 <= cx < cols,
            0 <= cy < rows,
            cols <= u32::MAX,
            rows <= u32::MAX,
            c == (cx as int, cy as int),
            k <= 8,
            old(stack)@.len() == start_len,
            start_len <= stack@.len() <= start_len + k,
            forall|j: int| 0 <= j < start_len ==> #[trigger] stack@[j] == old(stack)@[j],
            forall|j: int|
                start_len <= j < stack@.len() ==> in_grid(
                    cols as int,
                    rows as int,
                    (#[trigger] stack@[j].0 as int, stack@[j].1 as int),
                ) && adjacent(c, (stack@[j].0 as int, stack@[j].1 as int)),
            forall|j: int| 0 <= j < k && in_grid(cols as int, rows as int, #[trigger] neighbor_cell(c, j)) ==> stack_has(stack@, neighbor_cell(c, j)),
        decreases 8 - k,
    {
        let (ox, oy) = neighbor_offset(k);
        let nx = cx + ox;
        let ny = cy + oy;
        let ghost before = stack@;
        if nx >= 0 && nx < cols && ny >= 0 && ny < rows {
            stack.push((nx, ny));
            proof {
                assert forall|j: int| 0 <= j < k && in_grid(cols as int, rows as int, #[trigger] neighbor_cell(c, j)) implies stack_has(
                    stack@,
                    neighbor_cell(c, j),
                ) by {
                    let b = neighbor_cell(c, j);
                    assert(stack_has(before, b));
                    let i = choose|i: int| 0 <= i < before.len() && #[trigger] before[i] == (b.0 as i64, b.1 as i64);
                    assert(stack@[i] == before[i]);
                }
                assert(stack@[stack@.len() - 1] == (nx, ny));
                assert(stack_has(stack@, neighbor_cell(c, k as int)));
            }
        }
        k = k + 1;
    }
    proof {
        assert forall|b: (int, int)| in_grid(cols as int, rows as int, b) && adjacent(c, b) implies stack_has(stack@, b) by {
            let j = lemma_adjacent_is_neighbor(c, b);
            assert(in_grid(cols as int, rows as int, neighbor_cell(c, j)));
        }
    }
}

/// Depth-first flood fill from `(sx, sy)` over set flags of `halo`,
/// marking every reached cell visited. Returns how many reached cells are
/// set in `unmatched` and their column and row extremes.
fn flood(
    halo: &Vec<bool>,
    unmatched: &Vec<bool>,
    visited: &mut Vec<bool>,
    cols: i64,
    rows: i64,
    sx: i64,
    sy: i64,
) -> (res: (u32, i64, i64, i64, i64))
    requires
        halo@.len() == cols * rows,
        unmatched@.len() == cols * rows,
        old(visited)@.len() == cols * rows,
        0 <= cols <= u32::MAX,
        0 <= rows <= u32::MAX,
        cols * rows <= i32::MAX,
        in_grid(cols as int, rows as int, (sx as int, sy as int)),
        mask_at(halo@, cols as int, (sx as int, sy as int)),
        !mask_at(old(visited)@, cols as int, (sx as int, sy as int)),
        visited_closed(halo@, old(visited)@, cols as int, rows as int),
    ensures
        final(visited)@.len() == cols * rows,
        forall|c: (int, int)|
            in_grid(cols as int, rows as int, c) ==> #[trigger] mask_at(final(visited)@, cols as int, c) == (mask_at(
                old(visited)@,
                cols as int,
                c,
            ) || connected(halo@, cols as int, rows as int, (sx as int, sy as int), c)),
        ({
            let cl = cluster(halo@, unmatched@, cols as int, rows as int, (sx as int, sy as int));
            &&& cl.finite()
            &&& res.0 == cl.len()
            &&& res.0 > 0 ==> lowest_col(cl, res.1 as int) && highest_col(cl, res.2 as int) && lowest_row(cl, res.3 as int)
                && highest_row(cl, res.4 as int)
        }),
{
    let ghost d = halo@;
    let ghost u = unmatched@;
    let ghost v0 = visited@;
    let ghost ci = cols as int;
    let ghost ri = rows as int;
    let ghost start = (sx as int, sy as int);
    let ghost mut comp: Set<(int, int)> = Set::empty();
    let ghost mut cells: Set<(int, int)> = Set::empty();
    let mut stack: Vec<(i64, i64)> = Vec::new();
    stack.push((sx, sy));
    let mut count: u32 = 0;
    let mut min_x: i64 = i32::MAX as i64;
    let mut max_x: i64 = i32::MIN as i64;
    let mut min_y: i64 = i32::MAX as i64;
    let mut max_y: i64 = i32::MIN as i64;
    proof {
        lemma_connected_refl(d, ci, ri, start);
        lemma_count_false_bounds(visited@);
        assert(stack@[0] == (sx, sy));
        assert(cols <= i32::MAX && rows <= i32::MAX) by (nonlinear_arith)
            requires cols * rows <= i32::MAX, 0 <= sx < cols, 0 <= sy < rows;
        assert(cells =~= comp.filter(|c: (int, int)| mask_at(u, ci, c)));
    }
    while stack.len() > 0
        invariant
            halo@ == d,
            unmatched@ == u,
            d.len() == ci * ri,
            u.len() == ci * ri,
            v0.len() == ci * ri,
            visited@.len() == ci * ri,
            ci == cols,
            ri == rows,
            0 <= cols <= u32::MAX,
            0 <= rows <= u32::MAX,
            cols * rows <= i32::MAX,
            start == (sx as int, sy as int),
            in_grid(ci, ri, start),
            mask_at(d, ci, start),
            !mask_at(v0, ci, start),
            visited_closed(d, v0, ci, ri),
            comp.finite(),
            forall|c: (int, int)|
                in_grid(ci, ri, c) ==> #[trigger] mask_at(visited@, ci, c) == (mask_at(v0, ci, c) || comp.contains(c)),
            forall|c: (int, int)|
                #[trigger] comp.contains(c) ==> in_grid(ci, ri, c) && !mask_at(v0, ci, c) && connected(d, ci, ri, start, c),
            forall|a: (int, int), b: (int, int)|
                #![trigger comp.contains(a), adjacent(a, b)]
                comp.contains(a) && adjacent(a, b) && in_grid(ci, ri, b) && mask_at(d, ci, b) ==> mask_at(visited@, ci, b)
                    || stack_has(stack@, b),
            forall|k: int|
                0 <= k < stack@.len() ==> in_grid(ci, ri, (#[trigger] stack@[k].0 as int, stack@[k].1 as int)) && (mask_at(
                    d,
                    ci,
                    (stack@[k].0 as int, stack@[k].1 as int),
                ) ==> connected(d, ci, ri, start, (stack@[k].0 as int, stack@[k].1 as int))),
            comp.contains(start) || (stack@.len() == 1 && stack@[0] == (sx, sy)),
            cells == comp.filter(|c: (int, int)| mask_at(u, ci, c)),
            cells.finite(),
            count == cells.len(),
            count + count_false(visited@) <= ci * ri,
            count == 0 ==> min_x == i32::MAX && max_x == i32::MIN && min_y == i32::MAX && max_y == i32::MIN,
            cols <= i32::MAX,
            rows <= i32::MAX,
            count > 0 ==> lowest_col(cells, min_x as int) && highest_col(cells, max_x as int) && lowest_row(
                cells,
                min_y as int,
            ) && highest_row(cells, max_y as int),
        decreases 9 * count_false(visited@) + stack@.len(),
    {
        let ghost old_stack = stack@;
        let ghost old_comp = comp;
        let ghost old_cells = cells;
        let e = stack.pop().unwrap();
        let (cx, cy) = e;
        let ghost ec = (cx as int, cy as int);
        assert(old_stack[old_stack.len() - 1] == e);
        assert(forall|k: int| 0 <= k < stack@.len() ==> #[trigger] stack@[k] == old_stack[k]);
        proof {
            lemma_index_in_grid(ci, ri, ec);
            lemma_count_false_bounds(visited@);
        }
        let i = (cy * cols + cx) as usize;
        assert(i == cell_index(ci, ec));
        assert(visited@[i as int] == mask_at(visited@, ci, ec));
        assert(halo@[i as int] == mask_at(d, ci, ec));
        if visited[i] || !halo[i] {
            proof {
                assert forall|a: (int, int), b: (int, int)|
                    #![trigger comp.contains(a), adjacent(a, b)]
                    comp.contains(a) && adjacent(a, b) && in_grid(ci, ri, b) && mask_at(d, ci, b) implies mask_at(
                        visited@,
                        ci,
                        b,
                    ) || stack_has(stack@, b) by {
                    if !mask_at(visited@, ci, b) {
                        assert(stack_has(old_stack, b));
                        let k = choose|k: int| 0 <= k < old_stack.len() && #[trigger] old_stack[k] == (b.0 as i64, b.1 as i64);
                        if k < old_stack.len() - 1 {
                            assert(stack@[k] == old_stack[k]);
                        }
                    }
                }
                if !comp.contains(start) {
                    assert(ec == start);
                    assert(!mask_at(visited@, ci, start));
                }
            }
            continue;
        }
        proof {
            assert(!old_comp.contains(ec));
            assert(!mask_at(v0, ci, ec));
            assert(mask_at(d, ci, ec));
            assert(connected(d, ci, ri, start, ec));
            assert(!old_cells.contains(ec));
        }
        let ghost vis_before = visited@;
        visited.set(i, true);
        proof {
            lemma_count_false_set(vis_before, i as int);
            assert forall|c: (int, int)| in_grid(ci, ri, c) && c != ec implies mask_at(visited@, ci, c) == mask_at(
                vis_before,
                ci,
                c,
            ) by {
                lemma_index_injective(ci, ri, c, ec);
                lemma_index_in_grid(ci, ri, c);
            }
            assert(mask_at(visited@, ci, ec));
            comp = comp.insert(ec);
        }
        let u_here = unmatched[i];
        assert(u_here == mask_at(u, ci, ec));
        if u_here {
            proof {
                cells = cells.insert(ec);
            }
            let ghost (omx, oMx, omy, oMy) = (min_x as int, max_x as int, min_y as int, max_y as int);
            count = count + 1;
            if cx < min_x {
                min_x = cx;
            }
            if cx > max_x {
                max_x = cx;
            }
            if cy < min_y {
                min_y = cy;
            }
            if cy > max_y {
                max_y = cy;
            }
            proof {
                assert(lowest_col(cells, min_x as int)) by {
                    if min_x == cx {
                        assert(cells.contains(ec));
                    } else {
                        let w = choose|c: (int, int)| #[trigger] old_cells.contains(c) && c.0 == omx;
                        assert(cells.contains(w));
                    }
                }
                assert(highest_col(cells, max_x as int)) by {
                    if max_x == cx {
                        assert(cells.contains(ec));
                    } else {
                        let w = choose|c: (int, int)| #[trigger] old_cells.contains(c) && c.0 == oMx;
                        assert(cells.contains(w));
                    }
                }
                assert(lowest_row(cells, min_y as int)) by {
                    if min_y == cy {
                        assert(cells.contains(ec));
                    } else {
                        let w = choose|c: (int, int)| #[trigger] old_cells.contains(c) && c.1 == omy;
                        assert(cells.contains(w));
                    }
                }
                assert(highest_row(cells, max_y as int)) by {
                    if max_y == cy {
                        assert(cells.contains(ec));
                    } else {
                        let w = choose|c: (int, int)| #[trigger] old_cells.contains(c) && c.1 == oMy;
                        assert(cells.contains(w));
                    }
                }
            }
        }
        proof {
            assert(cells =~= comp.filter(|c: (int, int)| mask_at(u, ci, c)));
        }
        let ghost mid_stack = stack@;
        push_neighbors(&mut stack, cols, rows, cx, cy);
        proof {
            assert forall|a: (int, int), b: (int, int)|
                #![trigger comp.contains(a), adjacent(a, b)]
                comp.contains(a) && adjacent(a, b) && in_grid(ci, ri, b) && mask_at(d, ci, b) implies mask_at(
                    visited@,
                    ci,
                    b,
                ) || stack_has(stack@, b) by {
                if a == ec {
                } else if !mask_at(visited@, ci, b) {
                    assert(old_comp.contains(a));
                    assert(b != ec);
                    assert(!mask_at(vis_before, ci, b));
                    assert(stack_has(old_stack, b));
                    let k = choose|k: int| 0 <= k < old_stack.len() && #[trigger] old_stack[k] == (b.0 as i64, b.1 as i64);
                    if k == old_stack.len() - 1 {
                        assert(b == ec);
                    }
                    assert(stack@[k] == old_stack[k]);
                }
            }
            assert forall|k: int|
                0 <= k < stack@.len() implies in_grid(ci, ri, (#[trigger] stack@[k].0 as int, stack@[k].1 as int)) && (mask_at(
                    d,
                    ci,
                    (stack@[k].0 as int, stack@[k].1 as int),
                ) ==> connected(d, ci, ri, start, (stack@[k].0 as int, stack@[k].1 as int))) by {
                let b = (stack@[k].0 as int, stack@[k].1 as int);
                if k >= mid_stack.len() {
                    if mask_at(d, ci, b) {
                        lemma_connected_extend(d, ci, ri, start, ec, b);
                    }
                } else {
                    assert(stack@[k] == mid_stack[k]);
                    assert(mid_stack[k] == old_stack[k]);
                }
            }
            assert forall|c: (int, int)| #[trigger] comp.contains(c) implies in_grid(ci, ri, c) && !mask_at(v0, ci, c)
                && connected(d, ci, ri, start, c) by {
                if c != ec {
                    assert(old_comp.contains(c));
                }
            }
            assert forall|c: (int, int)| in_grid(ci, ri, c) implies #[trigger] mask_at(visited@, ci, c) == (mask_at(
                v0,
                ci,
                c,
            ) || comp.contains(c)) by {
                if c != ec {
                    assert(mask_at(vis_before, ci, c) == (mask_at(v0, ci, c) || old_comp.contains(c)));
                }
            }
            lemma_count_false_bounds(visited@);
        }
    }
    proof {
        assert forall|a: (int, int), b: (int, int)|
            #![trigger comp.contains(a), adjacent(a, b)]
            comp.contains(a) && adjacent(a, b) && in_grid(ci, ri, b) && mask_at(d, ci, b) implies comp.contains(b) by {
            assert(!stack_has(stack@, b));
            assert(mask_at(visited@, ci, b));
            if !comp.contains(b) {
                assert(mask_at(v0, ci, b));
                lemma_connected_ends(d, ci, ri, start, a);
                assert(adjacent(b, a));
                assert(mask_at(v0, ci, a));
            }
        }
        assert forall|c: (int, int)| connected(d, ci, ri, start, c) implies comp.contains(c) by {
            let p = choose|p: Seq<(int, int)>| #[trigger] is_path(d, ci, ri, p) && p[0] == start && p.last() == c;
            lemma_path_stays_in(d, ci, ri, p, comp);
        }
        assert forall|c: (int, int)| in_grid(ci, ri, c) implies #[trigger] mask_at(visited@, ci, c) == (mask_at(
            v0,
            ci,
            c,
        ) || connected(d, ci, ri, start, c)) by {
            if comp.contains(c) {
            }
        }
        assert(cells =~= cluster(d, u, ci, ri, start));
    }
    (count, min_x, max_x, min_y, max_y)
}

// ----- regions -----

/// The flags of the blocks that are not matched.
pub open spec fn unmatched_flags(vs: Seq<MotionVector>) -> Seq<bool> {
    Seq::new(vs.len(), |i: int| !vs[i].matched)
}

/// The unmatched flags dilated by the merge gap: cells within `gap`
/// blocks (per axis) of an unmatched block.
pub open spec fn halo_flags(vs: Seq<MotionVector>, cols: int, rows: int, gap: u32) -> Seq<bool> {
    Seq::new(
        (cols * rows) as nat,
        |i: int| dilated_at(unmatched_flags(vs), cols, rows, gap_radius(gap), (i % cols, i / cols)),
    )
}

/// `l` is the first cell, in row-major order, of its connected component
/// of set flags of `d`.
pub open spec fn is_leader(d: Seq<bool>, cols: int, rows: int, l: (int, int)) -> bool {
    &&& in_grid(cols, rows, l)
    &&& mask_at(d, cols, l)
    &&& forall|c: (int, int)| in_grid(cols, rows, c) && rm_before(c, l) ==> !#[trigger] connected(d, cols, rows, c, l)
}

/// The bounding box, in pixels, of a non-empty set of cells of side `bs`,
/// and its number of cells.
pub open spec fn cluster_region(s: Set<(int, int)>, bs: int) -> Region {
    let x0 = choose|v: int| lowest_col(s, v);
    let x1 = choose|v: int| highest_col(s, v);
    let y0 = choose|v: int| lowest_row(s, v);
    let y1 = choose|v: int| highest_row(s, v);
    Region {
        x: (x0 * bs) as u32,
        y: (y0 * bs) as u32,
        width: ((x1 - x0 + 1) * bs) as u32,
        height: ((y1 - y0 + 1) * bs) as u32,
        block_count: s.len() as u32,
    }
}

/// The regions of the components whose leaders lie at or after `(x, y)`
/// in row-major order, in that order, keeping those with at least `k`
/// cells set in `u`.
pub open spec fn regions_from(
    d: Seq<bool>,
    u: Seq<bool>,
    cols: int,
    rows: int,
    bs: int,
    k: int,
    x: int,
    y: int,
) -> Seq<Region>
    decreases rows - y, cols - x,
{
    if y >= rows || cols <= 0 {
        Seq::empty()
    } else if x >= cols {
        regions_from(d, u, cols, rows, bs, k, 0, y + 1)
    } else {
        let rest = regions_from(d, u, cols, rows, bs, k, x + 1, y);
        let cl = cluster(d, u, cols, rows, (x, y));
        if is_leader(d, cols, rows, (x, y)) && cl.len() >= k {
            seq![cluster_region(cl, bs)] + rest
        } else {
            rest
        }
    }
}

/// Region `a` does not come after region `b`: compared by top edge, then
/// by left edge.
pub open spec fn corner_le(a: Region, b: Region) -> bool {
    a.y < b.y || (a.y == b.y && a.x <= b.x)
}

/// Inserts `r` into `s` after every element that does not come after it.
pub open spec fn insert_by_corner(s: Seq<Region>, r: Region) -> Seq<Region>
    decreases s.len(),
{
    if s.len() == 0 {
        seq![r]
    } else if corner_le(s.last(), r) {
        s.push(r)
    } else {
        insert_by_corner(s.drop_last(), r).push(s.last())
    }
}

/// Stable sort by `(y, x)`: equal keys keep their order.
pub open spec fn sort_by_corner(s: Seq<Region>) -> Seq<Region>
    decreases s.len(),
{
    if s.len() == 0 {
        s
    } else {
        insert_by_corner(sort_by_corner(s.drop_last()), s.last())
    }
}

/// A region holds at least `k` blocks, and its box, at least one block
/// wide and high, lies inside the `cols`×`rows` grid of blocks of side `bs`.
pub open spec fn region_in_grid(r: Region, cols: int, rows: int, bs: int, k: int) -> bool {
    &&& r.block_count >= k
    &&& r.x + r.width <= cols * bs
    &&& r.y + r.height <= rows * bs
    &&& r.width >= bs
    &&& r.height >= bs
}

/// Every element of `insert_by_corner(s, r)` is `r` or an element of `s`:
/// a property of all of those holds of all of these.
pub proof fn lemma_insert_keeps(s: Seq<Region>, r: Region, p: spec_fn(Region) -> bool)
    requires
        p(r),
        forall|i: int| 0 <= i < s.len() ==> p(#[trigger] s[i]),
    ensures
        insert_by_corner(s, r).len() == s.len() + 1,
        forall|i: int| 0 <= i < insert_by_corner(s, r).len() ==> p(#[trigger] insert_by_corner(s, r)[i]),
    decreases s.len(),
{
    if s.len() > 0 && !corner_le(s.last(), r) {
        let t = s.drop_last();
        lemma_insert_keeps(t, r, p);
        let ins = insert_by_corner(t, r);
        assert forall|i: int| 0 <= i < ins.push(s.last()).len() implies p(#[trigger] ins.push(s.last())[i]) by {
            if i < ins.len() {
                assert(ins.push(s.last())[i] == ins[i]);
            }
        }
    }
}

/// Sorting keeps every property that all the regions have.
pub proof fn lemma_sort_keeps(s: Seq<Region>, p: spec_fn(Region) -> bool)
    requires
        forall|i: int| 0 <= i < s.len() ==> p(#[trigger] s[i]),
    ensures
        sort_by_corner(s).len() == s.len(),
        forall|i: int| 0 <= i < sort_by_corner(s).len() ==> p(#[trigger] sort_by_corner(s)[i]),
    decreases s.len(),
{
    if s.len() > 0 {
        lemma_sort_keeps(s.drop_last(), p);
        lemma_insert_keeps(sort_by_corner(s.drop_last()), s.last(), p);
    }
}

/// What `unmatched_regions(merge_gap, min_blocks)` returns.
pub open spec fn regions_spec(res: BlockMatchResult, merge_gap: u32, min_blocks: u32) -> Seq<Region> {
    regions_of(res.vectors@, res.cols as int, res.rows as int, res.block_size as int, merge_gap, min_blocks)
}

/// The regions of a `cols`×`rows` grid of vectors with blocks of side `bs`.
pub open spec fn regions_of(vs: Seq<MotionVector>, cols: int, rows: int, bs: int, merge_gap: u32, min_blocks: u32) -> Seq<Region> {
    sort_by_corner(
        regions_from(
            halo_flags(vs, cols, rows, merge_gap),
            unmatched_flags(vs),
            cols,
            rows,
            bs,
            if min_blocks == 0 { 1 } else { min_blocks as int },
            0,
            0,
        ),
    )
}

fn insert_sorted(v: &mut Vec<Region>, r: Region)
    ensures
        final(v)@ == insert_by_corner(old(v)@, r),
{
    let ghost s = v@;
    v.push(r);
    let mut j: usize = v.len() - 1;
    assert(s.take(j as int) =~= s);
    assert(s.skip(j as int) =~= Seq::<Region>::empty());
    assert(insert_by_corner(s, r) + s.skip(j as int) =~= insert_by_corner(s, r));
    while j > 0 && !(v[j - 1].y < r.y || (v[j - 1].y == r.y && v[j - 1].x <= r.x))
        invariant
            0 <= j < v@.len(),
            v@.len() == s.len() + 1,
            v@ =~= s.take(j as int).push(r) + s.skip(j as int),
            insert_by_corner(s, r) == insert_by_corner(s.take(j as int), r) + s.skip(j as int),
        decreases j,
    {
        let prev = v[j - 1];
        proof {
            let t = s.take(j as int);
            assert(t.drop_last() =~= s.take(j - 1));
            assert(t.last() == prev);
            assert(insert_by_corner(t, r) == insert_by_corner(s.take(j - 1), r).push(prev));
            assert(insert_by_corner(s.take(j - 1), r).push(prev) + s.skip(j as int) =~= insert_by_corner(
                s.take(j - 1),
                r,
            ) + s.skip(j - 1));
        }
        v.set(j, prev);
        v.set(j - 1, r);
        j = j - 1;
        assert(v@ =~= s.take(j as int).push(r) + s.skip(j as int));
    }
    proof {
        let t = s.take(j as int);
        if j > 0 {
            assert(t.last() == s[j - 1]);
            assert(insert_by_corner(t, r) == t.push(r));
        } else {
            assert(t =~= Seq::<Region>::empty());
        }
    }
}

fn sort_regions(input: Vec<Region>) -> (out: Vec<Region>)
    ensures
        out@ == sort_by_corner(input@),
{
    let mut out: Vec<Region> = Vec::new();
    let mut i: usize = 0;
    while i < input.len()
        invariant
            i <= input@.len(),
            out@ == sort_by_corner(input@.take(i as int)),
        decreases input@.len() - i,
    {
        proof {
            assert(input@.take(i as int + 1).drop_last() =~= input@.take(i as int));
        }
        insert_sorted(&mut out, input[i]);
        i = i + 1;
    }
    assert(input@.take(i as int) =~= input@);
    out
}

/// Some cell before `pos` in row-major order reaches `c` through set flags.
pub open spec fn reached_before(d: Seq<bool>, cols: int, rows: int, c: (int, int), pos: (int, int)) -> bool {
    exists|l: (int, int)| in_grid(cols, rows, l) && rm_before(l, pos) && #[trigger] connected(d, cols, rows, l, c)
}

proof fn lemma_reached_closed(d: Seq<bool>, v: Seq<bool>, cols: int, rows: int, pos: (int, int))
    requires
        forall|c: (int, int)| in_grid(cols, rows, c) ==> #[trigger] mask_at(v, cols, c) == reached_before(d, cols, rows, c, pos),
    ensures
        visited_closed(d, v, cols, rows),
{
    assert forall|a: (int, int), b: (int, int)|
        #![trigger mask_at(v, cols, a), adjacent(a, b)]
        in_grid(cols, rows, a) && in_grid(cols, rows, b) && mask_at(v, cols, a) && adjacent(a, b) && mask_at(d, cols, b)
            implies mask_at(v, cols, b) by {
        assert(reached_before(d, cols, rows, a, pos));
        let l = choose|l: (int, int)| in_grid(cols, rows, l) && rm_before(l, pos) && #[trigger] connected(d, cols, rows, l, a);
        lemma_connected_extend(d, cols, rows, l, a, b);
        assert(reached_before(d, cols, rows, b, pos));
    }
}

proof fn lemma_extremes_unique(s: Set<(int, int)>, a: int, b: int)
    ensures
        lowest_col(s, a) && lowest_col(s, b) ==> a == b,
        highest_col(s, a) && highest_col(s, b) ==> a == b,
        lowest_row(s, a) && lowest_row(s, b) ==> a == b,
        highest_row(s, a) && highest_row(s, b) ==> a == b,
{
    if lowest_col(s, a) && lowest_col(s, b) {
        let wa = choose|c: (int, int)| #[trigger] s.contains(c) && c.0 == a;
        let wb = choose|c: (int, int)| #[trigger] s.contains(c) && c.0 == b;
        assert(a <= wb.0 && b <= wa.0);
    }
    if highest_col(s, a) && highest_col(s, b) {
        let wa = choose|c: (int, int)| #[trigger] s.contains(c) && c.0 == a;
        let wb = choose|c: (int, int)| #[trigger] s.contains(c) && c.0 == b;
        assert(wb.0 <= a && wa.0 <= b);
    }
    if lowest_row(s, a) && lowest_row(s, b) {
        let wa = choose|c: (int, int)| #[trigger] s.contains(c) && c.1 == a;
        let wb = choose|c: (int, int)| #[trigger] s.contains(c) && c.1 == b;
        assert(a <= wb.1 && b <= wa.1);
    }
    if highest_row(s, a) && highest_row(s, b) {
        let wa = choose|c: (int, int)| #[trigger] s.contains(c) && c.1 == a;
        let wb = choose|c: (int, int)| #[trigger] s.contains(c) && c.1 == b;
        assert(wb.1 <= a && wa.1 <= b);
    }
}

impl BlockMatchResult {
    /// Groups unmatched blocks into bounding rectangles. The unmatched
    /// flags are dilated by `merge_gap` blocks; the 8-connected components
    /// of the dilated flags, taken in row-major order of their first cell,
    /// each give the bounding box (in pixels) and number of the originally
    /// unmatched blocks they contain; components with fewer than
    /// `max(min_blocks, 1)` such blocks are dropped, and the rest are
    /// sorted stably by top edge, then left edge.
    pub fn unmatched_regions(&self, merge_gap: u32, min_blocks: u32) -> (regions: Vec<Region>)
        requires
            self.wf(),
            self.cols as int * self.rows as int <= i32::MAX,
            self.cols as int * self.block_size as int <= u32::MAX,
            self.rows as int * self.block_size as int <= u32::MAX,
        ensures
            regions@ == regions_spec(*self, merge_gap, min_blocks),
            forall|i: int|
                0 <= i < regions@.len() ==> region_in_grid(
                    #[trigger] regions@[i],
                    self.cols as int,
                    self.rows as int,
                    self.block_size as int,
                    if min_blocks == 0 { 1 } else { min_blocks as int },
                ),
    {
        let cols = self.cols as i64;
        let rows = self.rows as i64;
        let bs = self.block_size;
        let ghost ci = cols as int;
        let ghost ri = rows as int;
        let ghost u = unmatched_flags(self.vectors@);
        let ghost d = halo_flags(self.vectors@, ci, ri, merge_gap);
        let mut mask: Vec<bool> = Vec::new();
        let mut i: usize = 0;
        while i < self.vectors.len()
            invariant
                i <= self.vectors@.len(),
                u == unmatched_flags(self.vectors@),
                mask@ =~= u.take(i as int),
            decreases self.vectors@.len() - i,
        {
            mask.push(!self.vectors[i].matched);
            i = i + 1;
        }
        assert(mask@ =~= u);
        let halo = dilate(&mask, cols, rows, merge_gap);
        proof {
            assert forall|j: int| 0 <= j < ci * ri implies #[trigger] halo@[j] == d[j] by {
                if ci > 0 {
                    vstd::arithmetic::div_mod::lemma_fundamental_div_mod(j, ci);
                    let c = (j % ci, j / ci);
                    assert(0 <= j % ci < ci) by {
                        vstd::arithmetic::div_mod::lemma_mod_bound(j, ci);
                    }
                    assert(0 <= j / ci < ri) by (nonlinear_arith)
                        requires j == ci * (j / ci) + j % ci, 0 <= j % ci < ci, 0 <= j < ci * ri, ci > 0;
                    assert(cell_index(ci, c) == j) by (nonlinear_arith)
                        requires j == ci * (j / ci) + j % ci, c == (j % ci, j / ci);
                    assert(mask_at(halo@, ci, c) == dilated_at(mask@, ci, ri, gap_radius(merge_gap), c));
                } else {
                    assert(ci * ri == 0) by (nonlinear_arith)
                        requires ci == 0;
                }
            }
            assert(halo@ =~= d);
        }
        let n = self.vectors.len();
        let mut visited: Vec<bool> = Vec::new();
        let mut k: usize = 0;
        while k < n
            invariant
                k <= n,
                visited@.len() == k,
                forall|j: int| 0 <= j < k ==> !#[trigger] visited@[j],
            decreases n - k,
        {
            visited.push(false);
            k = k + 1;
        }
        let min_count: u32 = if min_blocks == 0 { 1 } else { min_blocks };
        let ghost goal = regions_from(d, u, ci, ri, bs as int, min_count as int, 0, 0);
        proof {
            assert forall|c: (int, int)| in_grid(ci, ri, c) implies #[trigger] mask_at(visited@, ci, c) == reached_before(
                d,
                ci,
                ri,
                c,
                (0, 0),
            ) by {
                lemma_index_in_grid(ci, ri, c);
            }
            assert(goal =~= Seq::<Region>::empty() + goal);
        }
        let mut found: Vec<Region> = Vec::new();
        let mut y: i64 = 0;
        while y < rows
            invariant
                ci == cols,
                ri == rows,
                0 <= cols <= u32::MAX,
                0 <= rows <= u32::MAX,
                cols * rows <= i32::MAX,
                cols * bs <= u32::MAX,
                rows * bs <= u32::MAX,
                halo@ == d,
                mask@ == u,
                d.len() == ci * ri,
                u.len() == ci * ri,
                visited@.len() == ci * ri,
                1 <= min_count,
                goal == regions_from(d, u, ci, ri, bs as int, min_count as int, 0, 0),
                0 <= y <= rows,
                forall|c: (int, int)|
                    in_grid(ci, ri, c) ==> #[trigger] mask_at(visited@, ci, c) == reached_before(d, ci, ri, c, (0, y as int)),
                goal == found@ + regions_from(d, u, ci, ri, bs as int, min_count as int, 0, y as int),
                forall|j: int| 0 <= j < found@.len() ==> region_in_grid(#[trigger] found@[j], ci, ri, bs as int, min_count as int),
            decreases rows - y,
        {
            let mut x: i64 = 0;
            while x < cols
                invariant
                    ci == cols,
                    ri == rows,
                    0 <= cols <= u32::MAX,
                    0 <= rows <= u32::MAX,
                    cols * rows <= i32::MAX,
                    cols * bs <= u32::MAX,
                    rows * bs <= u32::MAX,
                    halo@ == d,
                    mask@ == u,
                    d.len() == ci * ri,
                    u.len() == ci * ri,
                    visited@.len() == ci * ri,
                    1 <= min_count,
                    goal == regions_from(d, u, ci, ri, bs as int, min_count as int, 0, 0),
                    0 <= y < rows,
                    0 <= x <= cols,
                    forall|c: (int, int)|
                        in_grid(ci, ri, c) ==> #[trigger] mask_at(visited@, ci, c) == reached_before(
                            d,
                            ci,
                            ri,
                            c,
                            (x as int, y as int),
                        ),
                    goal == found@ + regions_from(d, u, ci, ri, bs as int, min_count as int, x as int, y as int),
                    forall|j: int| 0 <= j < found@.len() ==> region_in_grid(#[trigger] found@[j], ci, ri, bs as int, min_count as int),
                decreases cols - x,
            {
                let ghost pos = (x as int, y as int);
                let ghost next = (x as int + 1, y as int);
                let ghost rest = regions_from(d, u, ci, ri, bs as int, min_count as int, x as int + 1, y as int);
                let ghost cl = cluster(d, u, ci, ri, pos);
                proof {
                    lemma_index_in_grid(ci, ri, pos);
                    assert(regions_from(d, u, ci, ri, bs as int, min_count as int, x as int, y as int) == if is_leader(
                        d,
                        ci,
                        ri,
                        pos,
                    ) && cl.len() >= min_count {
                        seq![cluster_region(cl, bs as int)] + rest
                    } else {
                        rest
                    });
                }
                let idx = (y * cols + x) as usize;
                assert(idx == cell_index(ci, pos));
                let here = halo[idx];
                let seen = visited[idx];
                assert(here == mask_at(d, ci, pos));
                assert(seen == mask_at(visited@, ci, pos));
                if !here || seen {
                    proof {
                        if !here {
                            assert(!is_leader(d, ci, ri, pos));
                            assert forall|c: (int, int)| in_grid(ci, ri, c) implies #[trigger] mask_at(visited@, ci, c)
                                == reached_before(d, ci, ri, c, next) by {
                                if reached_before(d, ci, ri, c, next) {
                                    let l = choose|l: (int, int)| in_grid(ci, ri, l) && rm_before(l, next) && #[trigger] connected(d, ci, ri, l, c);
                                    if l == pos {
                                        lemma_connected_ends(d, ci, ri, l, c);
                                    } else {
                                        assert(reached_before(d, ci, ri, c, pos));
                                    }
                                }
                                if reached_before(d, ci, ri, c, pos) {
                                    let l = choose|l: (int, int)| in_grid(ci, ri, l) && rm_before(l, pos) && #[trigger] connected(d, ci, ri, l, c);
                                    assert(reached_before(d, ci, ri, c, next));
                                }
                            }
                        } else {
                            assert(reached_before(d, ci, ri, pos, pos));
                            let l0 = choose|l: (int, int)| in_grid(ci, ri, l) && rm_before(l, pos) && #[trigger] connected(d, ci, ri, l, pos);
                            assert(!is_leader(d, ci, ri, pos));
                            lemma_reached_closed(d, visited@, ci, ri, pos);
                            let vs = Set::new(|c: (int, int)| in_grid(ci, ri, c) && mask_at(visited@, ci, c));
                            assert forall|c: (int, int)| in_grid(ci, ri, c) implies #[trigger] mask_at(visited@, ci, c)
                                == reached_before(d, ci, ri, c, next) by {
                                if reached_before(d, ci, ri, c, next) {
                                    let l = choose|l: (int, int)| in_grid(ci, ri, l) && rm_before(l, next) && #[trigger] connected(d, ci, ri, l, c);
                                    if l == pos {
                                        let p = choose|p: Seq<(int, int)>| #[trigger] is_path(d, ci, ri, p) && p[0] == pos && p.last() == c;
                                        assert forall|a: (int, int), b: (int, int)|
                                            #![trigger vs.contains(a), adjacent(a, b)]
                                            vs.contains(a) && adjacent(a, b) && in_grid(ci, ri, b) && mask_at(d, ci, b) implies vs.contains(b) by {
                                            assert(mask_at(visited@, ci, a));
                                        }
                                        lemma_path_stays_in(d, ci, ri, p, vs);
                                    } else {
                                        assert(reached_before(d, ci, ri, c, pos));
                                    }
                                }
                                if reached_before(d, ci, ri, c, pos) {
                                    let l = choose|l: (int, int)| in_grid(ci, ri, l) && rm_before(l, pos) && #[trigger] connected(d, ci, ri, l, c);
                                    assert(reached_before(d, ci, ri, c, next));
                                }
                            }
                        }
                        assert(goal =~= found@ + rest);
                    }
                    x = x + 1;
                    continue;
                }
                proof {
                    lemma_reached_closed(d, visited@, ci, ri, pos);
                    assert forall|c: (int, int)| in_grid(ci, ri, c) && rm_before(c, pos) implies !#[trigger] connected(
                        d,
                        ci,
                        ri,
                        c,
                        pos,
                    ) by {
                        if connected(d, ci, ri, c, pos) {
                            assert(reached_before(d, ci, ri, pos, pos));
                        }
                    }
                    assert(is_leader(d, ci, ri, pos));
                }
                let ghost vis_before = visited@;
                let (count, min_x, max_x, min_y, max_y) = flood(&halo, &mask, &mut visited, cols, rows, x, y);
                proof {
                    assert forall|c: (int, int)| in_grid(ci, ri, c) implies #[trigger] mask_at(visited@, ci, c) == reached_before(
                        d,
                        ci,
                        ri,
                        c,
                        next,
                    ) by {
                        assert(mask_at(vis_before, ci, c) == reached_before(d, ci, ri, c, pos));
                        if reached_before(d, ci, ri, c, next) {
                            let l = choose|l: (int, int)| in_grid(ci, ri, l) && rm_before(l, next) && #[trigger] connected(d, ci, ri, l, c);
                            if l != pos {
                                assert(reached_before(d, ci, ri, c, pos));
                            }
                        }
                        if reached_before(d, ci, ri, c, pos) {
                            let l = choose|l: (int, int)| in_grid(ci, ri, l) && rm_before(l, pos) && #[trigger] connected(d, ci, ri, l, c);
                            assert(reached_before(d, ci, ri, c, next));
                        }
                        if connected(d, ci, ri, pos, c) {
                            assert(reached_before(d, ci, ri, c, next));
                        }
                    }
                }
                if count < min_count {
                    proof {
                        assert(goal =~= found@ + rest);
                    }
                    x = x + 1;
                    continue;
                }
                proof {
                    let w = choose|c: (int, int)| #[trigger] cl.contains(c) && c.0 == min_x;
                    let w2 = choose|c: (int, int)| #[trigger] cl.contains(c) && c.0 == max_x;
                    let w3 = choose|c: (int, int)| #[trigger] cl.contains(c) && c.1 == min_y;
                    let w4 = choose|c: (int, int)| #[trigger] cl.contains(c) && c.1 == max_y;
                    lemma_connected_ends(d, ci, ri, pos, w);
                    lemma_connected_ends(d, ci, ri, pos, w2);
                    lemma_connected_ends(d, ci, ri, pos, w3);
                    lemma_connected_ends(d, ci, ri, pos, w4);
                    assert(0 <= min_x <= max_x < cols);
                    assert(0 <= min_y <= max_y < rows);
                    assert(min_x * bs <= cols * bs) by (nonlinear_arith)
                        requires 0 <= min_x < cols, bs >= 0;
                    assert(min_y * bs <= rows * bs) by (nonlinear_arith)
                        requires 0 <= min_y < rows, bs >= 0;
                    assert((max_x - min_x + 1) * bs <= cols * bs) by (nonlinear_arith)
                        requires 0 <= min_x <= max_x < cols, bs >= 0;
                    assert((max_y - min_y + 1) * bs <= rows * bs) by (nonlinear_arith)
                        requires 0 <= min_y <= max_y < rows, bs >= 0;
                }
                let region = Region {
                    x: min_x as u32 * bs,
                    y: min_y as u32 * bs,
                    width: (max_x - min_x + 1) as u32 * bs,
                    height: (max_y - min_y + 1) as u32 * bs,
                    block_count: count,
                };
                proof {
                    let x0 = choose|v: int| lowest_col(cl, v);
                    let x1 = choose|v: int| highest_col(cl, v);
                    let y0 = choose|v: int| lowest_row(cl, v);
                    let y1 = choose|v: int| highest_row(cl, v);
                    lemma_extremes_unique(cl, x0, min_x as int);
                    lemma_extremes_unique(cl, x1, max_x as int);
                    lemma_extremes_unique(cl, y0, min_y as int);
                    lemma_extremes_unique(cl, y1, max_y as int);
                    assert(region == cluster_region(cl, bs as int));
                    assert(min_x * bs + (max_x - min_x + 1) * bs <= cols * bs) by (nonlinear_arith)
                        requires 0 <= min_x <= max_x < cols, bs >= 0;
                    assert(min_y * bs + (max_y - min_y + 1) * bs <= rows * bs) by (nonlinear_arith)
                        requires 0 <= min_y <= max_y < rows, bs >= 0;
                    assert((max_x - min_x + 1) * bs >= bs && (max_y - min_y + 1) * bs >= bs) by (nonlinear_arith)
                        requires 0 <= min_x <= max_x, 0 <= min_y <= max_y, bs >= 0;
                    assert(region_in_grid(region, ci, ri, bs as int, min_count as int));
                }
                found.push(region);
                proof {
                    assert(goal =~= found@ + rest);
                }
                x = x + 1;
            }
            proof {
                assert forall|c: (int, int)| in_grid(ci, ri, c) implies #[trigger] mask_at(visited@, ci, c) == reached_before(
                    d,
                    ci,
                    ri,
                    c,
                    (0, y + 1),
                ) by {
                    assert(mask_at(visited@, ci, c) == reached_before(d, ci, ri, c, (cols as int, y as int)));
                    if reached_before(d, ci, ri, c, (0, y + 1)) {
                        let l = choose|l: (int, int)| in_grid(ci, ri, l) && rm_before(l, (0, y + 1)) && #[trigger] connected(d, ci, ri, l, c);
                        assert(reached_before(d, ci, ri, c, (cols as int, y as int)));
                    }
                    if reached_before(d, ci, ri, c, (cols as int, y as int)) {
                        let l = choose|l: (int, int)| in_grid(ci, ri, l) && rm_before(l, (cols as int, y as int)) && #[trigger] connected(d, ci, ri, l, c);
                        assert(reached_before(d, ci, ri, c, (0, y + 1)));
                    }
                }
                assert(regions_from(d, u, ci, ri, bs as int, min_count as int, x as int, y as int) == regions_from(
                    d,
                    u,
                    ci,
                    ri,
                    bs as int,
                    min_count as int,
                    0,
                    y + 1,
                ));
            }
            y = y + 1;
        }
        proof {
            assert(found@ =~= goal);
            lemma_sort_keeps(found@, |r: Region| region_in_grid(r, ci, ri, bs as int, min_count as int));
        }
        sort_regions(found)
    }
}

} // verus!
