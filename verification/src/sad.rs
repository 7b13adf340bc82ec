use vstd::prelude::*;
use crate::buffer::{lemma_offset_in_bounds, ImageView, RgbaBuffer};

verus! {

/// Absolute difference of two channel values.
pub open spec fn abs_diff(a: u8, b: u8) -> int {
    if a >= b {
        a - b
    } else {
        b - a
    }
}

/// Sum of absolute differences over the R, G and B channels of reference
/// pixel `(rx, ry)` and target pixel `(tx, ty)`; alpha is ignored.
pub open spec fn pixel_sad(r: ImageView, t: ImageView, rx: int, ry: int, tx: int, ty: int) -> int {
    abs_diff(r.channel(rx, ry, 0), t.channel(tx, ty, 0)) + abs_diff(r.channel(rx, ry, 1), t.channel(tx, ty, 1))
        + abs_diff(r.channel(rx, ry, 2), t.channel(tx, ty, 2))
}

/// SAD of the first `n` pixels of a row that starts at `(rx, ry)` in the
/// reference and at `(tx, ty)` in the target.
pub open spec fn row_sad(r: ImageView, t: ImageView, rx: int, ry: int, tx: int, ty: int, n: int) -> int
    decreases n,
{
    if n <= 0 {
        0
    } else {
        row_sad(r, t, rx, ry, tx, ty, n - 1) + pixel_sad(r, t, rx + n - 1, ry, tx + n - 1, ty)
    }
}

/// SAD of the first `k` rows of the `b`×`b` blocks whose top-left corners
/// are `(rx, ry)` (reference) and `(tx, ty)` (target).
pub open spec fn rows_sad(r: ImageView, t: ImageView, rx: int, ry: int, tx: int, ty: int, b: int, k: int) -> int
    decreases k,
{
    if k <= 0 {
        0
    } else {
        rows_sad(r, t, rx, ry, tx, ty, b, k - 1) + row_sad(r, t, rx, ry + k - 1, tx, ty + k - 1, b)
    }
}

/// SAD of the whole `b`×`b` block.
pub open spec fn block_sad(r: ImageView, t: ImageView, rx: int, ry: int, tx: int, ty: int, b: int) -> int {
    rows_sad(r, t, rx, ry, tx, ty, b, b)
}

/// The `b`×`b` block with top-left corner `(x, y)` lies inside `img`.
pub open spec fn block_fits(img: ImageView, x: int, y: int, b: int) -> bool {
    0 <= x && 0 <= y && x + b <= img.width && y + b <= img.height
}

/// What a SAD computation that stops after the first row at which the
/// running sum exceeds `cutoff` returns: the running sum at that point, or
/// the full SAD when it never does (rows from `k` on).
pub open spec fn sad_until(r: ImageView, t: ImageView, rx: int, ry: int, tx: int, ty: int, b: int, cutoff: int, k: int) -> int
    decreases b - k,
{
    if k >= b {
        rows_sad(r, t, rx, ry, tx, ty, b, b)
    } else if rows_sad(r, t, rx, ry, tx, ty, b, k + 1) > cutoff {
        rows_sad(r, t, rx, ry, tx, ty, b, k + 1)
    } else {
        sad_until(r, t, rx, ry, tx, ty, b, cutoff, k + 1)
    }
}

pub proof fn lemma_row_sad_bounds(r: ImageView, t: ImageView, rx: int, ry: int, tx: int, ty: int, n: int)
    requires
        0 <= n,
    ensures
        0 <= row_sad(r, t, rx, ry, tx, ty, n) <= 765 * n,
    decreases n,
{
    if n > 0 {
        lemma_row_sad_bounds(r, t, rx, ry, tx, ty, n - 1);
    }
}

pub proof fn lemma_rows_sad_bounds(r: ImageView, t: ImageView, rx: int, ry: int, tx: int, ty: int, b: int, k: int)
    requires
        0 <= k,
        0 <= b,
    ensures
        0 <= rows_sad(r, t, rx, ry, tx, ty, b, k) <= 765 * b * k,
    decreases k,
{
    if k > 0 {
        lemma_rows_sad_bounds(r, t, rx, ry, tx, ty, b, k - 1);
        lemma_row_sad_bounds(r, t, rx, ry + k - 1, tx, ty + k - 1, b);
        assert(765 * b * (k - 1) + 765 * b == 765 * b * k) by (nonlinear_arith);
    }
}

/// Row prefixes of the block SAD never decrease.
pub proof fn lemma_rows_sad_monotone(r: ImageView, t: ImageView, rx: int, ry: int, tx: int, ty: int, b: int, j: int, k: int)
    requires
        0 <= j <= k,
        0 <= b,
    ensures
        rows_sad(r, t, rx, ry, tx, ty, b, j) <= rows_sad(r, t, rx, ry, tx, ty, b, k),
    decreases k - j,
{
    if j < k {
        lemma_rows_sad_monotone(r, t, rx, ry, tx, ty, b, j, k - 1);
        lemma_row_sad_bounds(r, t, rx, ry + k - 1, tx, ty + k - 1, b);
    }
}

/// Stopping early at a cutoff changes nothing when the full SAD stays
/// within it, and otherwise still yields a value above the cutoff and no
/// larger than the full SAD.
pub proof fn lemma_sad_until(r: ImageView, t: ImageView, rx: int, ry: int, tx: int, ty: int, b: int, cutoff: int, k: int)
    requires
        0 <= k <= b,
    ensures
        block_sad(r, t, rx, ry, tx, ty, b) <= cutoff ==> sad_until(r, t, rx, ry, tx, ty, b, cutoff, k) == block_sad(r, t, rx, ry, tx, ty, b),
        block_sad(r, t, rx, ry, tx, ty, b) > cutoff && rows_sad(r, t, rx, ry, tx, ty, b, k) <= cutoff ==>
            cutoff < sad_until(r, t, rx, ry, tx, ty, b, cutoff, k) <= block_sad(r, t, rx, ry, tx, ty, b),
    decreases b - k,
{
    if k < b {
        lemma_rows_sad_monotone(r, t, rx, ry, tx, ty, b, k + 1, b);
        lemma_sad_until(r, t, rx, ry, tx, ty, b, cutoff, k + 1);
    }
}

/// Byte position arithmetic for pixel `(x0 + i, y)` of a well-formed image.
proof fn lemma_pixel_offset(img: ImageView, x0: int, i: int, y: int, row_start: int)
    requires
        img.wf(),
        img.in_bounds(x0 + i, y),
        0 <= x0,
        0 <= i,
        row_start == y * (img.width * 4) + x0 * 4,
    ensures
        row_start + i * 4 == img.offset(x0 + i, y, 0),
        0 <= img.offset(x0 + i, y, 0),
        img.offset(x0 + i, y, 2) < img.data.len(),
{
    lemma_offset_in_bounds(img, x0 + i, y, 0);
    lemma_offset_in_bounds(img, x0 + i, y, 2);
    assert(y * (img.width * 4) == y * img.width * 4) by (nonlinear_arith);
}

fn abs_diff_u8(a: u8, b: u8) -> (d: u64)
    ensures
        d == abs_diff(a, b),
{
    if a >= b {
        (a - b) as u64
    } else {
        (b - a) as u64
    }
}

/// SAD between the `block_size`-sided block of `reference` at `(rx, ry)`
/// and the block of `target` at `(tx, ty)`. `u64::MAX` when the target
/// block leaves the target image. Rows are summed in order, and the sum is
/// returned as soon as it exceeds `cutoff` after a row.
pub fn sad_block(
    reference: &RgbaBuffer,
    target: &RgbaBuffer,
    rx: u32,
    ry: u32,
    tx: i64,
    ty: i64,
    block_size: u32,
    cutoff: u64,
) -> (sum: u64)
    requires
        rx + block_size <= reference@.width,
        ry + block_size <= reference@.height,
        765 * block_size * block_size <= u64::MAX,
        -0x100_0000_0000 <= tx <= 0x100_0000_0000,
        -0x100_0000_0000 <= ty <= 0x100_0000_0000,
    ensures
        !block_fits(target@, tx as int, ty as int, block_size as int) ==> sum == u64::MAX,
        block_fits(target@, tx as int, ty as int, block_size as int) ==> sum == sad_until(
            reference@,
            target@,
            rx as int,
            ry as int,
            tx as int,
            ty as int,
            block_size as int,
            cutoff as int,
            0,
        ),
{
    let tw = target.width() as i64;
    let th = target.height() as i64;
    let b = block_size as i64;
    if tx < 0 || ty < 0 || tx + b > tw || ty + b > th {
        return u64::MAX;
    }
    if block_size == 0 {
        return 0;
    }
    let ghost rv = reference@;
    let ghost tv = target@;
    let ghost bb = block_size as int;
    let r_buf = reference.as_raw();
    let t_buf = target.as_raw();
    let r_len = r_buf.len();
    let t_len = t_buf.len();
    proof {
        lemma_offset_in_bounds(rv, rv.width - 1, rv.height - 1, 3);
        lemma_offset_in_bounds(tv, tv.width - 1, tv.height - 1, 3);
        assert(rv.width * 4 <= rv.offset(rv.width - 1, rv.height - 1, 3) + 1) by (nonlinear_arith)
            requires rv.offset(rv.width - 1, rv.height - 1, 3) == (rv.height - 1) * rv.width * 4 + (rv.width - 1) * 4 + 3,
                rv.height >= 1;
        assert(tv.width * 4 <= tv.offset(tv.width - 1, tv.height - 1, 3) + 1) by (nonlinear_arith)
            requires tv.offset(tv.width - 1, tv.height - 1, 3) == (tv.height - 1) * tv.width * 4 + (tv.width - 1) * 4 + 3,
                tv.height >= 1;
    }
    let r_stride: usize = reference.width() as usize * 4;
    let t_stride: usize = target.width() as usize * 4;
    let txu = tx as usize;
    let tyu = ty as usize;
    let mut sum: u64 = 0;
    let mut j: usize = 0;
    while j < block_size as usize
        invariant
            rv == reference@,
            tv == target@,
            rv.wf(),
            tv.wf(),
            bb == block_size,
            bb >= 1,
            r_buf@ == rv.data,
            t_buf@ == tv.data,
            r_len == rv.data.len(),
            t_len == tv.data.len(),
            r_stride == rv.width * 4,
            t_stride == tv.width * 4,
            txu == tx,
            tyu == ty,
            rx + bb <= rv.width,
            ry + bb <= rv.height,
            block_fits(tv, tx as int, ty as int, bb),
            765 * bb * bb <= u64::MAX,
            0 <= j <= bb,
            sum == rows_sad(rv, tv, rx as int, ry as int, tx as int, ty as int, bb, j as int),
            sad_until(rv, tv, rx as int, ry as int, tx as int, ty as int, bb, cutoff as int, 0)
                == sad_until(rv, tv, rx as int, ry as int, tx as int, ty as int, bb, cutoff as int, j as int),
        decreases bb - j,
    {
        proof {
            lemma_offset_in_bounds(rv, rx as int, ry + j, 0);
            lemma_offset_in_bounds(tv, tx as int, ty + j, 0);
            assert((ry + j) * (rv.width * 4) == (ry + j) * rv.width * 4) by (nonlinear_arith);
            assert((ty + j) * (tv.width * 4) == (ty + j) * tv.width * 4) by (nonlinear_arith);
            lemma_rows_sad_bounds(rv, tv, rx as int, ry as int, tx as int, ty as int, bb, j as int);
            assert(765 * bb * j + 765 * bb == 765 * bb * (j + 1)) by (nonlinear_arith);
            assert(765 * bb * (j + 1) <= 765 * bb * bb) by (nonlinear_arith)
                requires j + 1 <= bb, bb >= 0;
        }
        let r_row: usize = (ry as usize + j) * r_stride + rx as usize * 4;
        let t_row: usize = (tyu + j) * t_stride + txu * 4;
        let ghost row_base = sum as int;
        let mut i: usize = 0;
        while i < block_size as usize
            invariant
                rv == reference@,
                tv == target@,
                rv.wf(),
                tv.wf(),
                bb == block_size,
                r_buf@ == rv.data,
                t_buf@ == tv.data,
                r_len == rv.data.len(),
                t_len == tv.data.len(),
                r_stride == rv.width * 4,
                t_stride == tv.width * 4,
                rx + bb <= rv.width,
                ry + bb <= rv.height,
                block_fits(tv, tx as int, ty as int, bb),
                0 <= j < bb,
                0 <= i <= bb,
                r_row == (ry + j) * (rv.width * 4) + rx * 4,
                t_row == (ty + j) * (tv.width * 4) + tx * 4,
                row_base == rows_sad(rv, tv, rx as int, ry as int, tx as int, ty as int, bb, j as int),
                row_base + 765 * bb <= u64::MAX,
                sum == row_base + row_sad(rv, tv, rx as int, ry + j, tx as int, ty + j, i as int),
            decreases bb - i,
        {
            proof {
                lemma_pixel_offset(rv, rx as int, i as int, ry + j, r_row as int);
                lemma_pixel_offset(tv, tx as int, i as int, ty + j, t_row as int);
                lemma_row_sad_bounds(rv, tv, rx as int, ry + j, tx as int, ty + j, i as int);
                assert(765 * i <= 765 * bb - 765) by (nonlinear_arith)
                    requires i < bb;
            }
            let r_off = r_row + i * 4;
            let t_off = t_row + i * 4;
            let dr = abs_diff_u8(r_buf[r_off], t_buf[t_off]);
            let dg = abs_diff_u8(r_buf[r_off + 1], t_buf[t_off + 1]);
            let db = abs_diff_u8(r_buf[r_off + 2], t_buf[t_off + 2]);
            sum = sum + dr + dg + db;
            i = i + 1;
        }
        j = j + 1;
        if sum > cutoff {
            return sum;
        }
    }
    sum
}

} // verus!
