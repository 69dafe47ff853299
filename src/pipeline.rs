use vstd::prelude::*;

use crate::canvas::{Canvas, Rgb};
use crate::chunk::{background, fits_canvas, line_color, max_line_len, saturated, slot_of, ChunkContext, Outcome, Span};
use crate::error::RenderError;
use crate::layout::{compute, image_height, is_best_column_count, some_candidate, AspectRatio};
use crate::layout::lines_for;
use crate::plan::{keeps, kept_prefix, lemma_kept_bounded, plan_files, plan_of, sum_lines};
use crate::render::{
    fill_background, file_ctx, find_theme, flat_lines, flat_text, render_files, stitch, stitched,
    Totals,
};
use std::sync::atomic::{AtomicBool, Ordering};

verus! {

/// How to render.
#[derive(Clone, Debug)]
pub struct Options {
    pub column_width: u32,
    pub line_height: u32,
    pub target_aspect_ratio: AspectRatio,
    /// Worker threads; 0 uses every available CPU.
    pub threads: usize,
    pub fg_color: Option<Rgb>,
    pub bg_color: Option<Rgb>,
    pub highlight_truncated_lines: bool,
    pub display_to_be_processed_file: bool,
    pub theme: String,
    pub force_full_columns: bool,
    pub plain: bool,
    pub ignore_files_without_syntax: bool,
    pub color_modulation: u8,
}

/// The finished image and what was learned while drawing it.
#[derive(Clone, Debug)]
pub struct Rendered {
    pub canvas: Canvas,
    pub longest_line_chars: usize,
    pub num_ignored: usize,
}

/// The chunk context that `options` give for a canvas with `lines_per_column` rows of lines.
pub open spec fn options_ctx(options: Options, theme_background: Rgb, lines_per_column: int) -> ChunkContext {
    ChunkContext {
        column_width: options.column_width,
        line_height: options.line_height,
        line_num: 0,
        lines_per_column: lines_per_column as u32,
        fg_color: options.fg_color,
        bg_color: options.bg_color,
        theme_background,
        file_index: 0,
        color_modulation: options.color_modulation,
    }
}

/// `counts` holds the number of lines of each file.
pub open spec fn counts_lines_of(counts: Seq<usize>, files: Seq<Vec<Vec<Span>>>) -> bool {
    &&& counts.len() == files.len()
    &&& forall|i: int| 0 <= i < files.len() ==> counts[i] as int == files[i]@.len()
}

pub open spec fn kept_files(files: Seq<Vec<Vec<Span>>>, has_syntax: Seq<bool>, skip: bool) -> Seq<usize> {
    kept_prefix(has_syntax, skip, files.len() as int).map_values(|i: int| i as usize)
}

proof fn lemma_flat_len(files: Seq<Vec<Vec<Span>>>, counts: Seq<usize>, kept: Seq<usize>, ints: Seq<int>)
    requires
        counts_lines_of(counts, files),
        kept.len() == ints.len(),
        forall|k: int| 0 <= k < kept.len() ==> kept[k] as int == ints[k] && 0 <= ints[k] < files.len(),
    ensures
        flat_lines(files, kept).len() == sum_lines(counts, ints),
    decreases kept.len(),
{
    if kept.len() > 0 {
        lemma_flat_len(files, counts, kept.drop_last(), ints.drop_last());
    }
}

/// Copies one file rendered on its own into `canvas` (see `stitch`), adds
/// its outcome to `totals`, then reads `should_interrupt` and reports
/// `Cancelled` if it is set.
pub fn absorb(
    totals: &mut Totals,
    canvas: &mut Canvas,
    column: &Canvas,
    outcome: &Outcome,
    first: u32,
    ctx: &ChunkContext,
    should_interrupt: &AtomicBool,
) -> (r: Result<(), RenderError>)
    requires
        column.wf(),
        column.width == ctx.column_width,
        ctx.line_height > 0,
        column.height as int % ctx.line_height as int == 0,
        fits_canvas(*ctx, *old(canvas), first as int, column.height as int / ctx.line_height as int),
        old(totals).line_num + column.height as int / ctx.line_height as int <= u32::MAX,
    ensures
        stitched(*old(canvas), *final(canvas), *column, first as int, *ctx),
        final(totals).line_num == old(totals).line_num + column.height as int / ctx.line_height as int,
        final(totals).longest_line_chars == if old(totals).longest_line_chars < outcome.longest_line_in_chars {
            outcome.longest_line_in_chars
        } else {
            old(totals).longest_line_chars
        },
        final(totals).background == outcome.background,
        r is Err ==> r == Err::<(), RenderError>(RenderError::Cancelled),
{
    stitch(canvas, column, first, ctx);
    let n = column.height / ctx.line_height;
    totals.line_num = totals.line_num + n;
    if totals.longest_line_chars < outcome.longest_line_in_chars {
        totals.longest_line_chars = outcome.longest_line_in_chars;
    }
    totals.background = outcome.background;
    if should_interrupt.load(Ordering::Relaxed) {
        return Err(RenderError::Cancelled);
    }
    Ok(())
}

/// Renders the highlighted `files` into one image, in one thread.
///
/// Files without a syntax (`has_syntax`) are left out when
/// `options.ignore_files_without_syntax` is set. The lines of the remaining
/// files fill the columns of the layout that `compute` chooses, in input
/// order; slots past the last line take the background. `theme_names`
/// are the loaded themes, which must hold `options.theme`.
pub fn render(
    files: &Vec<Vec<Vec<Span>>>,
    has_syntax: &Vec<bool>,
    theme_names: &Vec<String>,
    theme_background: Rgb,
    options: &Options,
    should_interrupt: &AtomicBool,
) -> (r: Result<Rendered, RenderError>)
    requires
        files@.len() == has_syntax@.len(),
    ensures
        ({
            let kept = kept_files(files@, has_syntax@, options.ignore_files_without_syntax);
            let flat = flat_lines(files@, kept);
            let total = flat.len() as int;
            let theme_loaded = exists|k: int| 0 <= k < theme_names@.len() && theme_names@[k]@ == options.theme@;
            let valid = total <= u32::MAX && theme_loaded && options.target_aspect_ratio.width > 0
                && options.target_aspect_ratio.height > 0 && options.column_width > 0 && options.line_height > 0;
            &&& total == 0 ==> r == Err::<Rendered, RenderError>(RenderError::NoRenderableLines { num_files: kept.len() as usize })
            &&& total > u32::MAX ==> r == Err::<Rendered, RenderError>(RenderError::DimensionsTooLarge)
            &&& 0 < total <= u32::MAX && !theme_loaded ==> (r matches Err(RenderError::ThemeNotFound { requested, available })
                && requested@ == options.theme@
                && available@.len() == theme_names@.len()
                && forall|k: int| 0 <= k < theme_names@.len() ==> available@[k]@ == theme_names@[k]@)
            &&& 0 < total <= u32::MAX && theme_loaded && (options.target_aspect_ratio.width == 0
                || options.target_aspect_ratio.height == 0)
                ==> r == Err::<Rendered, RenderError>(RenderError::InvalidAspectRatio)
            &&& 0 < total && valid && r is Err ==> (r == Err::<Rendered, RenderError>(RenderError::Cancelled)
                || r == Err::<Rendered, RenderError>(RenderError::DimensionsTooLarge))
            &&& 0 < total && valid && some_candidate(total, options.column_width as int, options.line_height as int, options.force_full_columns)
                && (forall|c: int| #[trigger] is_best_column_count(options.target_aspect_ratio, total, c, options.column_width as int,
                    options.line_height as int, options.force_full_columns)
                    ==> lines_for(total, c) * c <= u32::MAX
                        && c * options.column_width * image_height(total, c, options.line_height as int) <= usize::MAX)
                ==> (r is Ok || r == Err::<Rendered, RenderError>(RenderError::Cancelled))
            &&& 0 < total && valid && !some_candidate(total, options.column_width as int, options.line_height as int, options.force_full_columns)
                ==> r == Err::<Rendered, RenderError>(RenderError::DimensionsTooLarge)
            &&& r is Ok ==> {
                let out = r->Ok_0;
                let canvas = out.canvas;
                let cw = options.column_width as int;
                let lh = options.line_height as int;
                let c = canvas.width as int / cw;
                let ctx = options_ctx(*options, theme_background, lines_for(total, c));
                &&& 0 < total && valid
                &&& is_best_column_count(options.target_aspect_ratio, total, c, cw, lh, options.force_full_columns)
                &&& canvas.wf()
                &&& canvas.width == c * cw
                &&& canvas.height == image_height(total, c, lh)
                &&& forall|px: int, py: int| #![trigger canvas.pixel(px, py)]
                    canvas.in_bounds(px, py) ==> canvas.pixel(px, py) == {
                        let g = slot_of(ctx, px, py);
                        if g < total {
                            line_color(file_ctx(ctx, flat[g].1), flat[g].0@, px % cw)
                        } else {
                            background(ctx, theme_background)
                        }
                    }
                &&& out.longest_line_chars == saturated(max_line_len(flat_text(flat)))
                &&& out.num_ignored == files@.len() - kept.len()
            }
        }),
{
    let ghost kept_spec = kept_files(files@, has_syntax@, options.ignore_files_without_syntax);
    let ghost kp = kept_prefix(has_syntax@, options.ignore_files_without_syntax, files@.len() as int);
    let ghost flat = flat_lines(files@, kept_spec);
    let mut counts: Vec<usize> = Vec::new();
    let mut i: usize = 0;
    while i < files.len()
        invariant
            0 <= i <= files@.len(),
            counts@.len() == i,
            forall|j: int| 0 <= j < i ==> counts@[j] as int == files@[j]@.len(),
        decreases files@.len() - i,
    {
        counts.push(files[i].len());
        i = i + 1;
    }
    proof {
        lemma_kept_bounded(has_syntax@, options.ignore_files_without_syntax, files@.len() as int);
        assert(counts_lines_of(counts@, files@));
        lemma_flat_len(files@, counts@, kept_spec, kp);
    }
    let plan = match plan_files(&counts, has_syntax, options.ignore_files_without_syntax) {
        Ok(p) => p,
        Err(e) => {
            return Err(e);
        },
    };
    assert(plan.kept@ =~= kept_spec);
    let total = plan.total_line_count;
    match find_theme(theme_names, &options.theme) {
        Ok(_) => {},
        Err(e) => {
            return Err(e);
        },
    }
    let cw = options.column_width;
    let lh = options.line_height;
    let d = match compute(options.target_aspect_ratio, cw, total, lh, options.force_full_columns) {
        Ok(d) => d,
        Err(e) => {
            return Err(e);
        },
    };
    let c = d.required_columns;
    proof {
        assert(d.lines_per_column as u64 * c as u64 <= 0xffff_ffffu64 * 0xffff_ffffu64) by (nonlinear_arith)
            requires d.lines_per_column <= 0xffff_ffffu64, c <= 0xffff_ffffu64;
        assert(d.imgx as u64 * d.imgy as u64 <= 0xffff_ffffu64 * 0xffff_ffffu64) by (nonlinear_arith)
            requires d.imgx <= 0xffff_ffffu64, d.imgy <= 0xffff_ffffu64;
    }
    if d.lines_per_column as u64 * c as u64 > u32::MAX as u64 {
        return Err(RenderError::DimensionsTooLarge);
    }
    if d.imgx as u64 * d.imgy as u64 > usize::MAX as u64 {
        return Err(RenderError::DimensionsTooLarge);
    }
    let ctx = ChunkContext {
        column_width: cw,
        line_height: lh,
        line_num: 0,
        lines_per_column: d.lines_per_column,
        fg_color: options.fg_color,
        bg_color: options.bg_color,
        theme_background,
        file_index: 0,
        color_modulation: options.color_modulation,
    };
    let mut canvas = Canvas::new(d.imgx, d.imgy, Rgb { r: 0, g: 0, b: 0 });
    proof {
        vstd::arithmetic::div_mod::lemma_fundamental_div_mod_converse(d.imgx as int, cw as int, c as int, 0);
        assert(d.imgy == d.lines_per_column * lh);
        assert(ctx == options_ctx(*options, theme_background, lines_for(total as int, c as int)));
    }
    let ghost start = canvas;
    proof {
        assert(canvas.width as int / cw as int == c);
        assert(canvas.width as int % cw as int == 0);
        assert(flat_lines(files@, plan.kept@).len() == total);
        assert(total <= d.lines_per_column * c);
        assert(d.lines_per_column > 0) by (nonlinear_arith)
            requires total <= d.lines_per_column * c, total > 0, c >= 1;
        assert(fits_canvas(ctx, canvas, 0, total as int));
    }
    let totals = match render_files(files, &plan.kept, &mut canvas, &ctx, should_interrupt) {
        Ok(t) => t,
        Err(e) => {
            return Err(e);
        },
    };
    let ghost mid = canvas;
    fill_background(&mut canvas, totals.line_num, &ctx, totals.background);
    proof {
        assert(kept_spec.len() > 0);
        assert forall|px: int, py: int| #![trigger canvas.pixel(px, py)]
            canvas.in_bounds(px, py) implies canvas.pixel(px, py) == {
                let g = slot_of(ctx, px, py);
                if g < total {
                    line_color(file_ctx(ctx, flat[g].1), flat[g].0@, px % cw as int)
                } else {
                    background(ctx, theme_background)
                }
            } by {
            assert(mid.pixel(px, py) == mid.pixel(px, py));
            assert(start.pixel(px, py) == start.pixel(px, py));
            let g = slot_of(ctx, px, py);
            assert(g >= 0) by (nonlinear_arith)
                requires px >= 0, py >= 0, g == (px / cw as int) * ctx.lines_per_column + py / lh as int, cw > 0, lh > 0;
        }
    }
    Ok(Rendered { canvas, longest_line_chars: totals.longest_line_chars, num_ignored: plan.num_ignored })
}

/// `files2` and `has2` are `files` and `has_syntax` without entry `j`.
pub open spec fn without(
    files: Seq<Vec<Vec<Span>>>,
    has_syntax: Seq<bool>,
    j: int,
    files2: Seq<Vec<Vec<Span>>>,
    has2: Seq<bool>,
) -> bool {
    &&& 0 <= j < files.len() <= usize::MAX
    &&& has_syntax.len() == files.len()
    &&& files2.len() == files.len() - 1
    &&& has2.len() == files2.len()
    &&& forall|i: int| 0 <= i < j ==> files2[i] == files[i] && has2[i] == has_syntax[i]
    &&& forall|i: int| j <= i < files2.len() ==> files2[i] == files[i + 1] && has2[i] == has_syntax[i + 1]
}

pub open spec fn kept_upto(has_syntax: Seq<bool>, skip: bool, m: int) -> Seq<usize> {
    kept_prefix(has_syntax, skip, m).map_values(|i: int| i as usize)
}

proof fn lemma_flat_same_files(files: Seq<Vec<Vec<Span>>>, files2: Seq<Vec<Vec<Span>>>, kept: Seq<usize>)
    requires
        forall|k: int| 0 <= k < kept.len() ==> files[kept[k] as int] == files2[kept[k] as int],
    ensures
        flat_lines(files, kept) == flat_lines(files2, kept),
    decreases kept.len(),
{
    if kept.len() > 0 {
        lemma_flat_same_files(files, files2, kept.drop_last());
    }
}

proof fn lemma_kept_upto_step(has_syntax: Seq<bool>, skip: bool, m: int)
    requires
        0 < m,
    ensures
        kept_upto(has_syntax, skip, m) == if keeps(has_syntax, skip, m - 1) {
            kept_upto(has_syntax, skip, m - 1).push((m - 1) as usize)
        } else {
            kept_upto(has_syntax, skip, m - 1)
        },
{
    if keeps(has_syntax, skip, m - 1) {
        assert(kept_upto(has_syntax, skip, m) =~= kept_upto(has_syntax, skip, m - 1).push((m - 1) as usize));
    }
}

proof fn lemma_prefix_before(
    files: Seq<Vec<Vec<Span>>>,
    has_syntax: Seq<bool>,
    j: int,
    files2: Seq<Vec<Vec<Span>>>,
    has2: Seq<bool>,
    skip: bool,
    m: int,
)
    requires
        without(files, has_syntax, j, files2, has2),
        0 <= m <= j,
    ensures
        kept_upto(has_syntax, skip, m) == kept_upto(has2, skip, m),
        flat_lines(files, kept_upto(has_syntax, skip, m)) == flat_lines(files2, kept_upto(has2, skip, m)),
    decreases m,
{
    lemma_kept_bounded(has_syntax, skip, m);
    if m > 0 {
        lemma_prefix_before(files, has_syntax, j, files2, has2, skip, m - 1);
        lemma_kept_upto_step(has_syntax, skip, m);
        lemma_kept_upto_step(has2, skip, m);
    }
    lemma_flat_same_files(files, files2, kept_upto(has_syntax, skip, m));
}

proof fn lemma_prefix_after(
    files: Seq<Vec<Vec<Span>>>,
    has_syntax: Seq<bool>,
    j: int,
    files2: Seq<Vec<Vec<Span>>>,
    has2: Seq<bool>,
    skip: bool,
    m: int,
)
    requires
        without(files, has_syntax, j, files2, has2),
        skip,
        !has_syntax[j],
        j < m <= files.len(),
    ensures
        kept_upto(has_syntax, skip, m).len() == kept_upto(has2, skip, m - 1).len(),
        flat_lines(files, kept_upto(has_syntax, skip, m)) == flat_lines(files2, kept_upto(has2, skip, m - 1)),
    decreases m,
{
    lemma_kept_upto_step(has_syntax, skip, m);
    if m == j + 1 {
        lemma_prefix_before(files, has_syntax, j, files2, has2, skip, j);
    } else {
        lemma_prefix_after(files, has_syntax, j, files2, has2, skip, m - 1);
        lemma_kept_upto_step(has2, skip, m - 1);
        let a = kept_upto(has_syntax, skip, m);
        let b = kept_upto(has2, skip, m - 1);
        if keeps(has_syntax, skip, m - 1) {
            assert(a.drop_last() =~= kept_upto(has_syntax, skip, m - 1));
            assert(b.drop_last() =~= kept_upto(has2, skip, m - 2));
            assert(a.last() as int == m - 1);
            assert(keeps(has2, skip, m - 2));
            assert(b.last() as int == m - 2);
            assert(files[a.last() as int] == files2[b.last() as int]);
        }
    }
}

/// A file that is skipped for want of a syntax leaves no trace: rendering
/// without it lays out exactly the same lines, so `render` draws the same
/// image either way.
pub proof fn lemma_skipped_file_leaves_no_trace(
    files: Seq<Vec<Vec<Span>>>,
    has_syntax: Seq<bool>,
    j: int,
    files2: Seq<Vec<Vec<Span>>>,
    has2: Seq<bool>,
)
    requires
        without(files, has_syntax, j, files2, has2),
        !has_syntax[j],
    ensures
        flat_lines(files, kept_files(files, has_syntax, true)) == flat_lines(files2, kept_files(files2, has2, true)),
        kept_files(files, has_syntax, true).len() == kept_files(files2, has2, true).len(),
{
    lemma_prefix_after(files, has_syntax, j, files2, has2, true, files.len() as int);
}

} // verus!
