use vstd::prelude::*;
use crate::block_match::{BlockMatchResult, MotionVector};

verus! {

/// 1 when `(x, y)` lies in the `cols`×`rows` grid and its flag is set.
pub open spec fn flag_at(m: Seq<bool>, cols: int, rows: int, x: int, y: int) -> int {
    if 0 <= x < cols && 0 <= y < rows && m[y * cols + x] {
        1
    } else {
        0
    }
}

/// 1 when `(x, y)` lies in the `cols`×`rows` grid.
pub open spec fn inside_at(cols: int, rows: int, x: int, y: int) -> int {
    if 0 <= x < cols && 0 <= y < rows {
        1
    } else {
        0
    }
}

/// Set flags in the 3×3 neighborhood of `(x, y)`, the cell included.
pub open spec fn neighborhood_set(m: Seq<bool>, cols: int, rows: int, x: int, y: int) -> int {
    flag_at(m, cols, rows, x - 1, y - 1) + flag_at(m, cols, rows, x, y - 1) + flag_at(m, cols, rows, x + 1, y - 1)
        + flag_at(m, cols, rows, x - 1, y) + flag_at(m, cols, rows, x, y) + flag_at(m, cols, rows, x + 1, y)
        + flag_at(m, cols, rows, x - 1, y + 1) + flag_at(m, cols, rows, x, y + 1) + flag_at(m, cols, rows, x + 1, y + 1)
}

/// Grid cells in the 3×3 neighborhood of `(x, y)`, the cell included.
pub open spec fn neighborhood_size(cols: int, rows: int, x: int, y: int) -> int {
    inside_at(cols, rows, x - 1, y - 1) + inside_at(cols, rows, x, y - 1) + inside_at(cols, rows, x + 1, y - 1)
        + inside_at(cols, rows, x - 1, y) + inside_at(cols, rows, x, y) + inside_at(cols, rows, x + 1, y)
        + inside_at(cols, rows, x - 1, y + 1) + inside_at(cols, rows, x, y + 1) + inside_at(cols, rows, x + 1, y + 1)
}

/// Strictly more than half of the neighborhood of `(x, y)` is set.
pub open spec fn majority_set(m: Seq<bool>, cols: int, rows: int, x: int, y: int) -> bool {
    neighborhood_set(m, cols, rows, x, y) * 2 > neighborhood_size(cols, rows, x, y)
}

/// The `matched` flags of the vectors.
pub open spec fn matched_flags(vs: Seq<MotionVector>) -> Seq<bool> {
    Seq::new(vs.len(), |i: int| vs[i].matched)
}

/// The vectors after the 3×3 majority filter on `matched`.
pub open spec fn smoothed(vs: Seq<MotionVector>, cols: int, rows: int) -> Seq<MotionVector> {
    Seq::new(
        vs.len(),
        |i: int| MotionVector { matched: majority_set(matched_flags(vs), cols, rows, i % cols, i / cols), ..vs[i] },
    )
}

fn cell_flag(m: &Vec<bool>, cols: i64, rows: i64, x: i64, y: i64) -> (f: (u32, u32))
    requires
        m@.len() == cols * rows,
        0 <= cols,
        0 <= rows,
        cols * rows <= i32::MAX,
        -1 <= x <= cols,
        -1 <= y <= rows,
    ensures
        f.0 == flag_at(m@, cols as int, rows as int, x as int, y as int),
        f.1 == inside_at(cols as int, rows as int, x as int, y as int),
{
    if x < 0 || x >= cols || y < 0 || y >= rows {
        return (0, 0);
    }
    assert(y * cols + x < cols * rows) by (nonlinear_arith)
        requires 0 <= x < cols, 0 <= y < rows;
    assert(0 <= y * cols) by (nonlinear_arith)
        requires 0 <= y, 0 <= cols;
    if m[(y * cols + x) as usize] {
        (1, 1)
    } else {
        (0, 1)
    }
}

fn neighborhood(m: &Vec<bool>, cols: i64, rows: i64, x: i64, y: i64) -> (n: (u32, u32))
    requires
        m@.len() == cols * rows,
        0 <= cols,
        0 <= rows,
        cols * rows <= i32::MAX,
        0 <= x < cols,
        0 <= y < rows,
    ensures
        n.0 == neighborhood_set(m@, cols as int, rows as int, x as int, y as int),
        n.1 == neighborhood_size(cols as int, rows as int, x as int, y as int),
{
    let a = cell_flag(m, cols, rows, x - 1, y - 1);
    let b = cell_flag(m, cols, rows, x, y - 1);
    let c = cell_flag(m, cols, rows, x + 1, y - 1);
    let d = cell_flag(m, cols, rows, x - 1, y);
    let e = cell_flag(m, cols, rows, x, y);
    let f = cell_flag(m, cols, rows, x + 1, y);
    let g = cell_flag(m, cols, rows, x - 1, y + 1);
    let h = cell_flag(m, cols, rows, x, y + 1);
    let k = cell_flag(m, cols, rows, x + 1, y + 1);
    (a.0 + b.0 + c.0 + d.0 + e.0 + f.0 + g.0 + h.0 + k.0, a.1 + b.1 + c.1 + d.1 + e.1 + f.1 + g.1 + h.1 + k.1)
}

impl BlockMatchResult {
    /// 3×3 majority filter on the `matched` flag: each block becomes
    /// matched iff strictly more than half of the grid cells of its 3×3
    /// neighborhood (itself included) were matched before. `dx`, `dy`,
    /// `cost` and `second_cost` are left unchanged.
    pub fn smooth_matched(&mut self)
        requires
            old(self).wf(),
            old(self).cols as int * old(self).rows as int <= i32::MAX,
        ensures
            final(self).vectors@ == smoothed(old(self).vectors@, old(self).cols as int, old(self).rows as int),
            final(self).block_size == old(self).block_size,
            final(self).cols == old(self).cols,
            final(self).rows == old(self).rows,
            final(self).width == old(self).width,
            final(self).height == old(self).height,
    {
        let cols = self.cols as i64;
        let rows = self.rows as i64;
        let ghost old_vs = self.vectors@;
        let ghost flags = matched_flags(old_vs);
        let mut original: Vec<bool> = Vec::new();
        let mut i: usize = 0;
        while i < self.vectors.len()
            invariant
                self.vectors@ == old_vs,
                flags == matched_flags(old_vs),
                i <= old_vs.len(),
                original@ =~= flags.take(i as int),
            decreases old_vs.len() - i,
        {
            original.push(self.vectors[i].matched);
            i = i + 1;
        }
        assert(original@ =~= flags);
        let ghost goal = smoothed(old_vs, cols as int, rows as int);
        let mut y: i64 = 0;
        while y < rows
            invariant
                0 <= cols,
                0 <= rows,
                cols * rows <= i32::MAX,
                old_vs.len() == cols * rows,
                original@ == flags,
                flags == matched_flags(old_vs),
                goal == smoothed(old_vs, cols as int, rows as int),
                0 <= y <= rows,
                self.vectors@.len() == old_vs.len(),
                self.cols == cols,
                self.rows == rows,
                self.block_size == old(self).block_size,
                self.width == old(self).width,
                self.height == old(self).height,
                forall|j: int| 0 <= j < y * cols ==> #[trigger] self.vectors@[j] == goal[j],
                forall|j: int| y * cols <= j < old_vs.len() ==> #[trigger] self.vectors@[j] == old_vs[j],
            decreases rows - y,
        {
            let mut x: i64 = 0;
            while x < cols
                invariant
                    0 <= cols,
                    0 <= rows,
                    cols * rows <= i32::MAX,
                    old_vs.len() == cols * rows,
                    original@ == flags,
                    flags == matched_flags(old_vs),
                    goal == smoothed(old_vs, cols as int, rows as int),
                    0 <= y < rows,
                    0 <= x <= cols,
                    self.vectors@.len() == old_vs.len(),
                    self.cols == cols,
                    self.rows == rows,
                    self.block_size == old(self).block_size,
                    self.width == old(self).width,
                    self.height == old(self).height,
                    forall|j: int| 0 <= j < y * cols + x ==> #[trigger] self.vectors@[j] == goal[j],
                    forall|j: int| y * cols + x <= j < old_vs.len() ==> #[trigger] self.vectors@[j] == old_vs[j],
                decreases cols - x,
            {
                let (set, size) = neighborhood(&original, cols, rows, x, y);
                proof {
                    assert(y * cols + x < cols * rows) by (nonlinear_arith)
                        requires 0 <= x < cols, 0 <= y < rows;
                    assert(0 <= y * cols) by (nonlinear_arith)
                        requires 0 <= y, 0 <= cols;
                    vstd::arithmetic::div_mod::lemma_fundamental_div_mod_converse(
                        y * cols + x, cols as int, y as int, x as int);
                }
                let idx = (y * cols + x) as usize;
                let mut v = self.vectors[idx];
                v.matched = set * 2 > size;
                self.vectors.set(idx, v);
                x = x + 1;
            }
            proof {
                assert(y * cols + cols == (y + 1) * cols) by (nonlinear_arith);
            }
            y = y + 1;
        }
        proof {
            assert(rows * cols == cols * rows) by (nonlinear_arith);
            assert(self.vectors@ =~= goal);
        }
    }
}

} // verus!
