use vstd::arithmetic::div_mod::lemma_fundamental_div_mod_converse;
use vstd::prelude::*;

use crate::error::RenderError;

verus! {

/// A target aspect ratio `width : height`, held as two integers.
#[derive(Clone, Copy, Debug, PartialEq, Eq)]
pub struct AspectRatio {
    pub width: u32,
    pub height: u32,
}

/// The size of the canvas and how lines are spread over its columns.
#[derive(Clone, Copy, Debug, PartialEq, Eq)]
pub struct Dimension {
    pub imgx: u32,
    pub imgy: u32,
    pub lines_per_column: u32,
    pub required_columns: u32,
}

/// Lines that each of `columns` columns must hold so that `total` lines fit.
pub open spec fn lines_for(total: int, columns: int) -> int {
    (total + columns - 1) / columns
}

pub open spec fn image_width(columns: int, column_width: int) -> int {
    columns * column_width
}

pub open spec fn image_height(total: int, columns: int, line_height: int) -> int {
    lines_for(total, columns) * line_height
}

/// A column count that the planner may choose.
pub open spec fn is_candidate(
    total: int,
    columns: int,
    column_width: int,
    line_height: int,
    force_full_columns: bool,
) -> bool {
    &&& 1 <= columns <= total
    &&& image_width(columns, column_width) <= u32::MAX
    &&& image_height(total, columns, line_height) <= u32::MAX
    &&& force_full_columns ==> total % columns == 0
}

pub open spec fn abs_diff(a: int, b: int) -> int {
    if a >= b { a - b } else { b - a }
}

/// `|w/h - tw/th|` equals `deviation / (h * th)`.
pub open spec fn deviation(
    target: AspectRatio,
    total: int,
    columns: int,
    column_width: int,
    line_height: int,
) -> int {
    abs_diff(
        image_width(columns, column_width) * target.height,
        target.width * image_height(total, columns, line_height),
    )
}

/// The aspect ratio with `a` columns is at least as close to the target as with `b`.
pub open spec fn no_farther(
    target: AspectRatio,
    total: int,
    a: int,
    b: int,
    column_width: int,
    line_height: int,
) -> bool {
    deviation(target, total, a, column_width, line_height) * image_height(total, b, line_height)
        <= deviation(target, total, b, column_width, line_height) * image_height(
        total,
        a,
        line_height,
    )
}

/// `columns` is the smallest candidate whose aspect ratio is closest to the target.
pub open spec fn is_best_column_count(
    target: AspectRatio,
    total: int,
    columns: int,
    column_width: int,
    line_height: int,
    force_full_columns: bool,
) -> bool {
    &&& is_candidate(total, columns, column_width, line_height, force_full_columns)
    &&& forall|c: int|
        is_candidate(total, c, column_width, line_height, force_full_columns) ==> no_farther(
            target,
            total,
            columns,
            c,
            column_width,
            line_height,
        )
    &&& forall|c: int|
        1 <= c < columns && is_candidate(total, c, column_width, line_height, force_full_columns)
            ==> !no_farther(target, total, c, columns, column_width, line_height)
}

pub open spec fn some_candidate(
    total: int,
    column_width: int,
    line_height: int,
    force_full_columns: bool,
) -> bool {
    exists|c: int| is_candidate(total, c, column_width, line_height, force_full_columns)
}

/// Where global line `line_num` is placed: its column's x offset and its row's y offset.
pub open spec fn offsets_of(line_num: int, lines_per_column: int, column_width: int, line_height: int) -> (int, int) {
    ((line_num / lines_per_column) * column_width, (line_num % lines_per_column) * line_height)
}

/// Maps a global line index to the x offset of its column and the y offset of its row.
pub fn calc_offsets(line_num: u32, lines_per_column: u32, column_width: u32, line_height: u32) -> (r: (u32, u32))
    requires
        lines_per_column > 0,
        (line_num / lines_per_column) * column_width <= u32::MAX,
        lines_per_column * line_height <= u32::MAX,
    ensures
        (r.0 as int, r.1 as int) == offsets_of(line_num as int, lines_per_column as int, column_width as int, line_height as int),
{
    let column = line_num / lines_per_column;
    let row = line_num % lines_per_column;
    proof {
        assert(row * line_height <= lines_per_column * line_height) by (nonlinear_arith)
            requires row < lines_per_column;
    }
    (column * column_width, row * line_height)
}

/// Placement is injective on the canvas's line slots, and every slot lies
/// inside the canvas: distinct global lines below `lines_per_column *
/// column_count` get distinct offsets, and each line's rectangle of
/// `column_width` by `line_height` pixels fits in the image.
pub proof fn lemma_offsets_injective_in_bounds(
    i: int,
    j: int,
    lines_per_column: int,
    column_count: int,
    column_width: int,
    line_height: int,
)
    requires
        lines_per_column > 0,
        column_width > 0,
        line_height > 0,
        0 <= i < lines_per_column * column_count,
        0 <= j < lines_per_column * column_count,
    ensures
        i != j ==> offsets_of(i, lines_per_column, column_width, line_height) != offsets_of(
            j,
            lines_per_column,
            column_width,
            line_height,
        ),
        offsets_of(i, lines_per_column, column_width, line_height).0 + column_width
            <= column_count * column_width,
        offsets_of(i, lines_per_column, column_width, line_height).1 + line_height
            <= lines_per_column * line_height,
{
    lemma_slot_in_bounds(i, lines_per_column, column_count, column_width, line_height);
    let (qi, ri) = (i / lines_per_column, i % lines_per_column);
    let (qj, rj) = (j / lines_per_column, j % lines_per_column);
    if offsets_of(i, lines_per_column, column_width, line_height) == offsets_of(
        j,
        lines_per_column,
        column_width,
        line_height,
    ) {
        assert(qi == qj) by (nonlinear_arith)
            requires qi * column_width == qj * column_width, column_width > 0;
        assert(ri == rj) by (nonlinear_arith)
            requires ri * line_height == rj * line_height, line_height > 0;
        assert(i == qi * lines_per_column + ri) by (nonlinear_arith)
            requires lines_per_column > 0, qi == i / lines_per_column, ri == i % lines_per_column;
        assert(j == qj * lines_per_column + rj) by (nonlinear_arith)
            requires lines_per_column > 0, qj == j / lines_per_column, rj == j % lines_per_column;
    }
}

pub(crate) proof fn lemma_slot_in_bounds(
    i: int,
    lines_per_column: int,
    column_count: int,
    column_width: int,
    line_height: int,
)
    requires
        lines_per_column > 0,
        column_width > 0,
        line_height > 0,
        0 <= i < lines_per_column * column_count,
    ensures
        (i / lines_per_column) * column_width + column_width <= column_count * column_width,
        (i % lines_per_column) * line_height + line_height <= lines_per_column * line_height,
{
    let q = i / lines_per_column;
    let r = i % lines_per_column;
    assert(i == q * lines_per_column + r && 0 <= r < lines_per_column) by (nonlinear_arith)
        requires lines_per_column > 0, q == i / lines_per_column, r == i % lines_per_column;
    assert(q < column_count) by (nonlinear_arith)
        requires i == q * lines_per_column + r, 0 <= r, i < lines_per_column * column_count, lines_per_column > 0;
    assert(q * column_width + column_width <= column_count * column_width) by (nonlinear_arith)
        requires q < column_count, column_width > 0;
    assert(r * line_height + line_height <= lines_per_column * line_height) by (nonlinear_arith)
        requires r < lines_per_column, line_height > 0;
}

/// Lines per column for `columns` columns, rounded up.
fn ceil_div(total: u32, columns: u32) -> (r: u64)
    requires
        columns >= 1,
    ensures
        r as int == lines_for(total as int, columns as int),
        r <= total,
{
    let r = (total as u64 + columns as u64 - 1) / (columns as u64);
    proof {
        let ghost t = total as int;
        let ghost k = columns as int;
        assert((t + k - 1) / k <= t) by (nonlinear_arith)
            requires k >= 1, t >= 0;
    }
    r
}

/// Chooses the number of columns whose image aspect ratio is closest to
/// `target`, preferring the smaller count on a tie. With
/// `force_full_columns` only counts that divide the line count are tried.
pub fn compute(
    target: AspectRatio,
    column_width: u32,
    total_line_count: u32,
    line_height: u32,
    force_full_columns: bool,
) -> (r: Result<Dimension, RenderError>)
    ensures
        target.width == 0 || target.height == 0 <==> r == Err::<Dimension, RenderError>(RenderError::InvalidAspectRatio),
        target.width > 0 && target.height > 0 && total_line_count == 0 <==> r == Err::<Dimension, RenderError>(RenderError::EmptyInput),
        target.width > 0 && target.height > 0 && total_line_count > 0 && (column_width == 0 || line_height == 0)
            <==> r == Err::<Dimension, RenderError>(RenderError::ZeroSizedColumn),
        target.width > 0 && target.height > 0 && total_line_count > 0 && column_width > 0 && line_height > 0
            ==> (r == Err::<Dimension, RenderError>(RenderError::DimensionsTooLarge)
                <==> !some_candidate(total_line_count as int, column_width as int, line_height as int, force_full_columns)),
        r is Err ==> (r->Err_0 == RenderError::InvalidAspectRatio || r->Err_0 == RenderError::EmptyInput
            || r->Err_0 == RenderError::ZeroSizedColumn || r->Err_0 == RenderError::DimensionsTooLarge),
        r is Ok ==> {
            let d = r->Ok_0;
            let c = d.required_columns as int;
            &&& is_best_column_count(target, total_line_count as int, c, column_width as int, line_height as int, force_full_columns)
            &&& d.lines_per_column as int == lines_for(total_line_count as int, c)
            &&& d.imgx as int == image_width(c, column_width as int)
            &&& d.imgy as int == image_height(total_line_count as int, c, line_height as int)
            &&& d.required_columns >= 1
            &&& d.lines_per_column as int * c >= total_line_count
        },
{
    if target.width == 0 || target.height == 0 {
        return Err(RenderError::InvalidAspectRatio);
    }
    if total_line_count == 0 {
        return Err(RenderError::EmptyInput);
    }
    if column_width == 0 || line_height == 0 {
        return Err(RenderError::ZeroSizedColumn);
    }
    let ghost total = total_line_count as int;
    let ghost cw = column_width as int;
    let ghost lh = line_height as int;
    let mut best: Option<(u32, u64, u128)> = None;
    let mut c: u64 = 1;
    while c <= total_line_count as u64
        invariant
            1 <= c <= total + 1,
            total == total_line_count, cw == column_width, lh == line_height,
            cw > 0, lh > 0, total > 0, target.width > 0, target.height > 0,
            best is None ==> forall|k: int| 1 <= k < c ==> !is_candidate(total, k, cw, lh, force_full_columns),
            best is Some ==> {
                let (b, h, dev) = best->Some_0;
                &&& 1 <= b < c
                &&& is_candidate(total, b as int, cw, lh, force_full_columns)
                &&& h as int == image_height(total, b as int, lh)
                &&& dev as int == deviation(target, total, b as int, cw, lh)
                &&& dev < 0x1_0000_0000_0000_0000u128
                &&& h <= u32::MAX
                &&& forall|k: int| 1 <= k < c && is_candidate(total, k, cw, lh, force_full_columns)
                    ==> no_farther(target, total, b as int, k, cw, lh)
                &&& forall|k: int| 1 <= k < b && is_candidate(total, k, cw, lh, force_full_columns)
                    ==> !no_farther(target, total, k, b as int, cw, lh)
            },
        decreases total + 1 - c,
    {
        let lines = ceil_div(total_line_count, c as u32);
        proof {
            assert(lines * line_height <= total * line_height) by (nonlinear_arith)
                requires lines <= total;
            assert(total * line_height <= 0xffff_ffffu64 * 0xffff_ffffu64) by (nonlinear_arith)
                requires total <= 0xffff_ffff, line_height <= 0xffff_ffff;
            assert(c * column_width <= 0xffff_ffffu64 * 0xffff_ffffu64) by (nonlinear_arith)
                requires c <= 0xffff_ffff, column_width <= 0xffff_ffff;
        }
        let width = c as u64 * column_width as u64;
        let height = lines * line_height as u64;
        let full = !force_full_columns || total_line_count as u64 % c == 0;
        if width <= u32::MAX as u64 && height <= u32::MAX as u64 && full {
            assert(is_candidate(total, c as int, cw, lh, force_full_columns));
            proof {
                assert(width * target.height <= 0xffff_ffffu128 * 0xffff_ffffu128) by (nonlinear_arith)
                    requires width <= 0xffff_ffff, target.height <= 0xffff_ffff;
                assert(target.width * height <= 0xffff_ffffu128 * 0xffff_ffffu128) by (nonlinear_arith)
                    requires height <= 0xffff_ffff, target.width <= 0xffff_ffff;
            }
            let a = width as u128 * target.height as u128;
            let t = target.width as u128 * height as u128;
            let dev: u128 = if a >= t { a - t } else { t - a };
            assert(dev < 0x1_0000_0000_0000_0000u128);
            match best {
                None => {
                    best = Some((c as u32, height, dev));
                    proof {
                        assert(no_farther(target, total, c as int, c as int, cw, lh));
                    }
                },
                Some((b, bh, bdev)) => {
                    proof {
                        assert(dev * bh <= 0x1_0000_0000_0000_0000u128 * 0xffff_ffffu128) by (nonlinear_arith)
                            requires dev < 0x1_0000_0000_0000_0000u128, bh <= 0xffff_ffff;
                        assert(bdev * height <= 0x1_0000_0000_0000_0000u128 * 0xffff_ffffu128) by (nonlinear_arith)
                            requires bdev < 0x1_0000_0000_0000_0000u128, height <= 0xffff_ffff;
                    }
                    if dev * (bh as u128) < bdev * (height as u128) {
                        best = Some((c as u32, height, dev));
                        proof {
                            assert forall|k: int| 1 <= k < c + 1 && is_candidate(total, k, cw, lh, force_full_columns)
                                implies no_farther(target, total, c as int, k, cw, lh) by {
                                if k < c {
                                    lemma_no_farther_trans(target, total, c as int, b as int, k, cw, lh);
                                }
                            }
                            assert forall|k: int| 1 <= k < c && is_candidate(total, k, cw, lh, force_full_columns)
                                implies !no_farther(target, total, k, c as int, cw, lh) by {
                                if no_farther(target, total, k, c as int, cw, lh) {
                                    lemma_no_farther_trans(target, total, b as int, k, c as int, cw, lh);
                                }
                            }
                        }
                    }
                },
            }
        }
        c = c + 1;
    }
    match best {
        None => {
            proof {
                assert forall|k: int| !is_candidate(total, k, cw, lh, force_full_columns) by {
                    if 1 <= k < c {
                    }
                }
            }
            Err(RenderError::DimensionsTooLarge)
        },
        Some((b, h, _)) => {
            let lines = ceil_div(total_line_count, b);
            proof {
                assert(lines * b >= total) by (nonlinear_arith)
                    requires lines as int == (total + b as int - 1) / (b as int), b >= 1;
                assert forall|k: int| is_candidate(total, k, cw, lh, force_full_columns)
                    implies no_farther(target, total, b as int, k, cw, lh) by {
                    assert(1 <= k < c);
                }
            }
            Ok(Dimension {
                imgx: (b as u64 * column_width as u64) as u32,
                imgy: h as u32,
                lines_per_column: lines as u32,
                required_columns: b,
            })
        },
    }
}

/// Transitivity of `no_farther` through a middle count `m`.
proof fn lemma_no_farther_trans(
    target: AspectRatio,
    total: int,
    a: int,
    m: int,
    b: int,
    column_width: int,
    line_height: int,
)
    requires
        total > 0, line_height > 0, 1 <= a, 1 <= m, 1 <= b,
        no_farther(target, total, a, m, column_width, line_height),
        no_farther(target, total, m, b, column_width, line_height),
    ensures
        no_farther(target, total, a, b, column_width, line_height),
{
    let ha = image_height(total, a, line_height);
    let hm = image_height(total, m, line_height);
    let hb = image_height(total, b, line_height);
    lemma_height_pos(total, a, line_height);
    lemma_height_pos(total, m, line_height);
    lemma_height_pos(total, b, line_height);
    let da = deviation(target, total, a, column_width, line_height);
    let dm = deviation(target, total, m, column_width, line_height);
    let db = deviation(target, total, b, column_width, line_height);
    assert(da * hb <= db * ha) by (nonlinear_arith)
        requires da * hm <= dm * ha, dm * hb <= db * hm, ha > 0, hm > 0, hb > 0, da >= 0, dm >= 0, db >= 0;
}

proof fn lemma_height_pos(total: int, columns: int, line_height: int)
    requires
        total > 0, columns >= 1, line_height > 0,
    ensures
        image_height(total, columns, line_height) > 0,
{
    assert(lines_for(total, columns) >= 1) by (nonlinear_arith)
        requires total > 0, columns >= 1, lines_for(total, columns) == (total + columns - 1) / columns;
    assert(lines_for(total, columns) * line_height > 0) by (nonlinear_arith)
        requires lines_for(total, columns) >= 1, line_height > 0;
}

/// For every valid planning input, the layout holds all lines: a column
/// count of at least one, times the lines each column holds, is at least
/// the total line count.
pub proof fn lemma_layout_covers_lines(
    target: AspectRatio,
    column_width: int,
    total_line_count: int,
    line_height: int,
    force_full_columns: bool,
    columns: int,
)
    requires
        is_best_column_count(target, total_line_count, columns, column_width, line_height, force_full_columns),
    ensures
        columns >= 1,
        lines_for(total_line_count, columns) * columns >= total_line_count,
{
    assert(lines_for(total_line_count, columns) * columns >= total_line_count) by (nonlinear_arith)
        requires columns >= 1, total_line_count >= 0,
            lines_for(total_line_count, columns) == (total_line_count + columns - 1) / columns;
}

} // verus!
