use vstd::arithmetic::div_mod::{lemma_fundamental_div_mod, lemma_fundamental_div_mod_converse};
use vstd::prelude::*;

use crate::canvas::{Canvas, Rgb};
use crate::chunk::{
    fits_canvas, line_color, max_line_len, saturated, background, paint_row, paint_slot, process, rendered, slot_of, ChunkContext,
    Outcome, Span,
};
use crate::error::RenderError;
use std::sync::atomic::{AtomicBool, Ordering};

verus! {

/// Relies on `num_cpus::get`, documented to always return at least 1.
#[verifier::external_body]
pub(crate) fn available_parallelism() -> (r: usize)
    ensures
        r >= 1,
{
    num_cpus::get()
}

/// `requested` worker threads (0 asks for `available`), clamped to `1 ..= available`.
pub open spec fn thread_count(requested: int, available: int) -> int {
    let wanted = if requested == 0 { available } else { requested };
    if wanted < 1 {
        1
    } else if wanted > available {
        available
    } else {
        wanted
    }
}

/// The number of worker threads to use for `requested` on a machine with `available` CPUs.
pub fn effective_threads(requested: usize, available: usize) -> (r: usize)
    requires
        available >= 1,
    ensures
        r as int == thread_count(requested as int, available as int),
        1 <= r <= available,
{
    let wanted = if requested == 0 { available } else { requested };
    if wanted < 1 {
        1
    } else if wanted > available {
        available
    } else {
        wanted
    }
}

/// The number of worker threads for `requested` on this machine.
pub fn worker_threads(requested: usize) -> (r: usize)
    ensures
        r >= 1,
        requested >= 1 ==> r <= requested,
        exists|available: int| available >= 1 && r == thread_count(requested as int, available),
{
    let available = available_parallelism();
    effective_threads(requested, available)
}

/// Finds the theme called `requested` among the loaded `names`.
pub fn find_theme(names: &Vec<String>, requested: &String) -> (r: Result<usize, RenderError>)
    ensures
        r is Ok ==> {
            let i = r->Ok_0 as int;
            &&& 0 <= i < names@.len()
            &&& names@[i]@ == requested@
            &&& forall|k: int| 0 <= k < i ==> names@[k]@ != requested@
        },
        r is Err ==> (forall|k: int| 0 <= k < names@.len() ==> names@[k]@ != requested@),
        r is Err ==> (r->Err_0 matches RenderError::ThemeNotFound { requested: req, available }
            && req@ == requested@
            && available@.len() == names@.len()
            && forall|k: int| 0 <= k < names@.len() ==> available@[k]@ == names@[k]@),
        (exists|k: int| 0 <= k < names@.len() && names@[k]@ == requested@) ==> r is Ok,
{
    let mut i: usize = 0;
    while i < names.len()
        invariant
            0 <= i <= names@.len(),
            forall|k: int| 0 <= k < i ==> names@[k]@ != requested@,
        decreases names@.len() - i,
    {
        if names[i] == *requested {
            return Ok(i);
        }
        i = i + 1;
    }
    let mut available: Vec<String> = Vec::new();
    let mut j: usize = 0;
    while j < names.len()
        invariant
            0 <= j <= names@.len(),
            available@.len() == j,
            forall|k: int| 0 <= k < j ==> available@[k]@ == names@[k]@,
        decreases names@.len() - j,
    {
        available.push(names[j].clone());
        j = j + 1;
    }
    Err(RenderError::ThemeNotFound { requested: requested.clone(), available })
}

/// Black, for padding when no background was seen.
pub open spec fn fill_color(background: Option<Rgb>) -> Rgb {
    match background {
        Some(c) => c,
        None => Rgb { r: 0, g: 0, b: 0 },
    }
}

/// Every pixel of a slot from `from` on is `color`; the others are as in `old`.
pub open spec fn filled(old: Canvas, new: Canvas, from: int, ctx: ChunkContext, color: Rgb) -> bool {
    &&& new.wf()
    &&& new.width == old.width
    &&& new.height == old.height
    &&& forall|px: int, py: int| #![trigger new.pixel(px, py)]
        old.in_bounds(px, py) ==> new.pixel(px, py) == if slot_of(ctx, px, py) >= from {
            color
        } else {
            old.pixel(px, py)
        }
}

/// The number of line slots of a canvas laid out by `ctx`.
pub open spec fn slot_count(ctx: ChunkContext, canvas: Canvas) -> int {
    ctx.lines_per_column * (canvas.width as int / ctx.column_width as int)
}

proof fn lemma_slot_below_count(ctx: ChunkContext, canvas: Canvas, px: int, py: int)
    requires
        fits_canvas(ctx, canvas, 0, 0),
        canvas.in_bounds(px, py),
    ensures
        0 <= slot_of(ctx, px, py) < slot_count(ctx, canvas),
{
    let cw = ctx.column_width as int;
    let lh = ctx.line_height as int;
    let lpc = ctx.lines_per_column as int;
    let cols = canvas.width as int / cw;
    vstd::arithmetic::div_mod::lemma_fundamental_div_mod(canvas.width as int, cw);
    assert(px / cw < cols) by (nonlinear_arith)
        requires 0 <= px < cw * cols, cw > 0;
    assert(0 <= py / lh < lpc) by (nonlinear_arith)
        requires 0 <= py < lpc * lh, lh > 0, lpc > 0;
    assert(0 <= (px / cw) * lpc + py / lh < lpc * cols) by (nonlinear_arith)
        requires 0 <= px / cw < cols, 0 <= py / lh < lpc, px >= 0, cw > 0;
}

/// Fills the slots from global line `from` to the end of the last column
/// with `background`, or black where none was seen.
pub fn fill_background(canvas: &mut Canvas, from: u32, ctx: &ChunkContext, background: Option<Rgb>)
    requires
        fits_canvas(*ctx, *old(canvas), 0, slot_count(*ctx, *old(canvas))),
    ensures
        filled(*old(canvas), *final(canvas), from as int, *ctx, fill_color(background)),
{
    let ghost start = *canvas;
    let color = match background {
        Some(c) => c,
        None => Rgb { r: 0, g: 0, b: 0 },
    };
    let mut colors: Vec<Rgb> = Vec::new();
    let mut x: u32 = 0;
    while x < ctx.column_width
        invariant
            x <= ctx.column_width,
            colors@.len() == x,
            forall|k: int| 0 <= k < x ==> colors@[k] == color,
        decreases ctx.column_width - x,
    {
        colors.push(color);
        x = x + 1;
    }
    let count = ctx.lines_per_column as u64 * (canvas.width / ctx.column_width) as u64;
    if from as u64 >= count {
        proof {
            assert forall|px: int, py: int| #![trigger canvas.pixel(px, py)]
                start.in_bounds(px, py) implies canvas.pixel(px, py) == if slot_of(*ctx, px, py) >= from {
                    color
                } else {
                    start.pixel(px, py)
                } by {
                lemma_slot_below_count(*ctx, start, px, py);
            }
        }
        return;
    }
    let mut g: u32 = from;
    while (g as u64) < count
        invariant
            fits_canvas(*ctx, start, 0, slot_count(*ctx, start)),
            count == slot_count(*ctx, start),
            from <= g <= count,
            colors@.len() == ctx.column_width,
            forall|k: int| 0 <= k < colors@.len() ==> colors@[k] == color,
            canvas.wf(),
            canvas.width == start.width,
            canvas.height == start.height,
            forall|px: int, py: int| #![trigger canvas.pixel(px, py)]
                start.in_bounds(px, py) ==> canvas.pixel(px, py) == if from <= slot_of(*ctx, px, py) < g {
                    color
                } else {
                    start.pixel(px, py)
                },
        decreases count - g,
    {
        paint_slot(canvas, g, &colors, ctx);
        proof {
        assert forall|px: int, py: int| #![trigger canvas.pixel(px, py)]
            start.in_bounds(px, py) implies canvas.pixel(px, py) == if from <= slot_of(*ctx, px, py) < g + 1 {
                color
            } else {
                start.pixel(px, py)
            } by {
            assert(0 <= px % (ctx.column_width as int) < ctx.column_width) by (nonlinear_arith)
                requires ctx.column_width > 0;
        }
        }
        g = g + 1;
    }
    proof {
        assert forall|px: int, py: int| #![trigger canvas.pixel(px, py)]
            start.in_bounds(px, py) implies canvas.pixel(px, py) == if slot_of(*ctx, px, py) >= from {
                color
            } else {
                start.pixel(px, py)
            } by {
            lemma_slot_below_count(*ctx, start, px, py);
        }
    }
}

/// `column` is one column holding `lines`, line `l` in rows `l * line_height ..`.
pub open spec fn column_of(column: Canvas, lines: Seq<Vec<Span>>, ctx: ChunkContext) -> bool {
    &&& column.wf()
    &&& column.width == ctx.column_width
    &&& column.height == lines.len() * ctx.line_height
    &&& forall|px: int, py: int| #![trigger column.pixel(px, py)]
        column.in_bounds(px, py) ==> column.pixel(px, py) == line_color(ctx, lines[py / ctx.line_height as int]@, px)
}

/// The context for rendering `n` lines alone into one column.
pub open spec fn column_ctx(ctx: ChunkContext, n: int) -> ChunkContext {
    ChunkContext { line_num: 0, lines_per_column: n as u32, ..ctx }
}

/// Renders one file's `lines` into a canvas of its own, one column wide.
pub fn render_column(lines: &Vec<Vec<Span>>, ctx: &ChunkContext) -> (r: (Canvas, Outcome))
    requires
        ctx.column_width > 0,
        ctx.line_height > 0,
        lines@.len() * ctx.line_height <= u32::MAX,
        ctx.column_width * (lines@.len() * ctx.line_height) <= usize::MAX,
    ensures
        column_of(r.0, lines@, *ctx),
        r.1.longest_line_in_chars == saturated(max_line_len(lines@)),
        r.1.background == Some(background(*ctx, ctx.theme_background)),
{
    proof {
        assert(lines@.len() <= lines@.len() * ctx.line_height) by (nonlinear_arith)
            requires ctx.line_height >= 1;
    }
    let n = lines.len() as u32;
    let height = n * ctx.line_height;
    let bg = match ctx.bg_color {
        Some(c) => c,
        None => ctx.theme_background,
    };
    let mut column = Canvas::new(ctx.column_width, height, bg);
    if n == 0 {
        assert(lines@.len() == 0);
        assert(column.height == 0);
        assert forall|px: int, py: int| #![trigger column.pixel(px, py)]
            column.in_bounds(px, py) implies column.pixel(px, py) == line_color(*ctx, lines@[py / ctx.line_height as int]@, px) by {}
        return (column, Outcome { longest_line_in_chars: 0, background: Some(bg) });
    }
    let col_ctx = ChunkContext { line_num: 0, lines_per_column: n, ..*ctx };
    proof {
        lemma_fundamental_div_mod(column.width as int, ctx.column_width as int);
        assert(column.width as int / ctx.column_width as int == 1) by {
            lemma_fundamental_div_mod_converse(column.width as int, ctx.column_width as int, 1, 0);
        }
    }
    let ghost start = column;
    let out = process(lines, &mut column, &col_ctx);
    proof {
        assert forall|px: int, py: int| #![trigger column.pixel(px, py)]
            column.in_bounds(px, py) implies column.pixel(px, py) == line_color(*ctx, lines@[py / ctx.line_height as int]@, px) by {
            assert(start.in_bounds(px, py));
            lemma_fundamental_div_mod_converse(px, ctx.column_width as int, 0, px);
            assert(0 <= py / (ctx.line_height as int) < n) by (nonlinear_arith)
                requires 0 <= py < n * ctx.line_height, ctx.line_height > 0;
        }
    }
    (column, out)
}

/// `new` is `old` with `column`'s lines copied into the slots from global line `first` on.
pub open spec fn stitched(old: Canvas, new: Canvas, column: Canvas, first: int, ctx: ChunkContext) -> bool {
    let n = column.height as int / ctx.line_height as int;
    &&& new.wf()
    &&& new.width == old.width
    &&& new.height == old.height
    &&& forall|px: int, py: int| #![trigger new.pixel(px, py)]
        old.in_bounds(px, py) ==> new.pixel(px, py) == {
            let g = slot_of(ctx, px, py);
            if first <= g < first + n {
                column.pixel(
                    px % ctx.column_width as int,
                    (g - first) * ctx.line_height + py % ctx.line_height as int,
                )
            } else {
                old.pixel(px, py)
            }
        }
}

/// Copies a column rendered on its own into `canvas`, its first line going
/// to the slot of global line `first`.
pub fn stitch(canvas: &mut Canvas, column: &Canvas, first: u32, ctx: &ChunkContext)
    requires
        column.wf(),
        column.width == ctx.column_width,
        ctx.line_height > 0,
        column.height as int % ctx.line_height as int == 0,
        fits_canvas(*ctx, *old(canvas), first as int, column.height as int / ctx.line_height as int),
    ensures
        stitched(*old(canvas), *final(canvas), *column, first as int, *ctx),
{
    let ghost start = *canvas;
    let lh = ctx.line_height;
    let n = column.height / lh;
    proof {
        lemma_fundamental_div_mod(column.height as int, lh as int);
    }
    let mut l: u32 = 0;
    while l < n
        invariant
            0 <= l <= n,
            lh == ctx.line_height,
            n == column.height / lh,
            column.height == lh * n,
            column.wf(),
            column.width == ctx.column_width,
            fits_canvas(*ctx, start, first as int, n as int),
            canvas.wf(),
            canvas.width == start.width,
            canvas.height == start.height,
            forall|px: int, py: int| #![trigger canvas.pixel(px, py)]
                start.in_bounds(px, py) ==> canvas.pixel(px, py) == {
                    let g = slot_of(*ctx, px, py);
                    if first <= g < first + l {
                        column.pixel(px % ctx.column_width as int, (g - first) * lh + py % lh as int)
                    } else {
                        start.pixel(px, py)
                    }
                },
        decreases n - l,
    {
        let mut dy: u32 = 0;
        while dy < lh
            invariant
                0 <= l < n,
                0 <= dy <= lh,
                lh == ctx.line_height,
                column.height == lh * n,
                column.wf(),
                column.width == ctx.column_width,
                fits_canvas(*ctx, start, first as int, n as int),
                canvas.wf(),
                canvas.width == start.width,
                canvas.height == start.height,
                forall|px: int, py: int| #![trigger canvas.pixel(px, py)]
                    start.in_bounds(px, py) ==> canvas.pixel(px, py) == {
                        let g = slot_of(*ctx, px, py);
                        if (first <= g < first + l) || (g == first + l && py % (lh as int) < dy) {
                            column.pixel(px % ctx.column_width as int, (g - first) * lh + py % lh as int)
                        } else {
                            start.pixel(px, py)
                        }
                    },
            decreases lh - dy,
        {
            proof {
                assert(l * lh + dy < column.height) by (nonlinear_arith)
                    requires l < n, dy < lh, column.height == lh * n;
            }
            let y = l * lh + dy;
            let mut row: Vec<Rgb> = Vec::new();
            let mut x: u32 = 0;
            while x < ctx.column_width
                invariant
                    x <= ctx.column_width,
                    y < column.height,
                    column.wf(),
                    column.width == ctx.column_width,
                    row@.len() == x,
                    forall|k: int| 0 <= k < x ==> row@[k] == column.pixel(k, y as int),
                decreases ctx.column_width - x,
            {
                row.push(column.get_pixel(x, y));
                x = x + 1;
            }
            let ghost prev = *canvas;
            paint_row(canvas, first + l, dy, &row, ctx);
            proof {
                assert forall|px: int, py: int| #![trigger canvas.pixel(px, py)]
                    start.in_bounds(px, py) implies canvas.pixel(px, py) == {
                        let g = slot_of(*ctx, px, py);
                        if (first <= g < first + l) || (g == first + l && py % (lh as int) < dy + 1) {
                            column.pixel(px % ctx.column_width as int, (g - first) * lh + py % lh as int)
                        } else {
                            start.pixel(px, py)
                        }
                    } by {
                    assert(prev.pixel(px, py) == prev.pixel(px, py));
                    assert(0 <= px % (ctx.column_width as int) < ctx.column_width) by (nonlinear_arith)
                        requires ctx.column_width > 0;
                    assert(0 <= py % (lh as int) < lh) by (nonlinear_arith)
                        requires lh > 0;
                }
            }
            dy = dy + 1;
        }
        l = l + 1;
    }
}

/// Rendering a file into a column of its own and stitching that column into
/// the canvas gives the same pixels as rendering the file into the canvas
/// directly: the order in which files are rendered never shows.
pub proof fn lemma_column_then_stitch_matches_direct(
    lines: Seq<Vec<Span>>,
    ctx: ChunkContext,
    base: Canvas,
    column: Canvas,
    via_column: Canvas,
    direct: Canvas,
)
    requires
        fits_canvas(ctx, base, ctx.line_num as int, lines.len() as int),
        column_of(column, lines, ctx),
        stitched(base, via_column, column, ctx.line_num as int, ctx),
        rendered(base, direct, lines, ctx.line_num as int, ctx),
    ensures
        via_column.width == direct.width,
        via_column.height == direct.height,
        forall|px: int, py: int| base.in_bounds(px, py) ==> via_column.pixel(px, py) == direct.pixel(px, py),
{
    let cw = ctx.column_width as int;
    let lh = ctx.line_height as int;
    let n = lines.len() as int;
    let first = ctx.line_num as int;
    assert(column.height as int / lh == n) by {
        lemma_fundamental_div_mod_converse(column.height as int, lh, n, 0);
    }
    assert forall|px: int, py: int| base.in_bounds(px, py) implies via_column.pixel(px, py) == direct.pixel(px, py) by {
        assert(via_column.pixel(px, py) == via_column.pixel(px, py));
        assert(direct.pixel(px, py) == direct.pixel(px, py));
        let g = slot_of(ctx, px, py);
        if first <= g < first + n {
            let k = g - first;
            let x = px % cw;
            let r = py % lh;
            assert(0 <= x < cw) by (nonlinear_arith)
                requires cw > 0, x == px % cw;
            assert(0 <= r < lh) by (nonlinear_arith)
                requires lh > 0, r == py % lh;
            lemma_fundamental_div_mod_converse(k * lh + r, lh, k, r);
            assert(k * lh + r < n * lh) by (nonlinear_arith)
                requires 0 <= k < n, 0 <= r < lh;
            assert(column.in_bounds(x, k * lh + r));
            assert(column.pixel(x, k * lh + r) == line_color(ctx, lines[k]@, x));
        }
    }
}

/// The lines of the files at `kept`, in order, each with the position of its
/// file within `kept`.
pub open spec fn flat_lines(files: Seq<Vec<Vec<Span>>>, kept: Seq<usize>) -> Seq<(Vec<Span>, int)>
    decreases kept.len(),
{
    if kept.len() == 0 {
        Seq::empty()
    } else {
        let f = kept.len() - 1;
        flat_lines(files, kept.drop_last()) + files[kept.last() as int]@.map_values(|l: Vec<Span>| (l, f))
    }
}

pub open spec fn flat_text(flat: Seq<(Vec<Span>, int)>) -> Seq<Vec<Span>> {
    flat.map_values(|p: (Vec<Span>, int)| p.0)
}

/// `ctx` for the file at position `f`.
pub open spec fn file_ctx(ctx: ChunkContext, f: int) -> ChunkContext {
    ChunkContext { file_index: f as usize, ..ctx }
}

/// Every slot below `flat.len()` shows its line, in its file's colors; the rest is as in `old`.
pub open spec fn shows_lines(old: Canvas, new: Canvas, flat: Seq<(Vec<Span>, int)>, ctx: ChunkContext) -> bool {
    &&& new.wf()
    &&& new.width == old.width
    &&& new.height == old.height
    &&& forall|px: int, py: int| #![trigger new.pixel(px, py)]
        old.in_bounds(px, py) ==> new.pixel(px, py) == {
            let g = slot_of(ctx, px, py);
            if 0 <= g < flat.len() {
                line_color(file_ctx(ctx, flat[g].1), flat[g].0@, px % ctx.column_width as int)
            } else {
                old.pixel(px, py)
            }
        }
}

proof fn lemma_max_line_len_append(a: Seq<Vec<Span>>, b: Seq<Vec<Span>>)
    ensures
        max_line_len(a + b) == if max_line_len(a) < max_line_len(b) { max_line_len(b) } else { max_line_len(a) },
    decreases b.len(),
{
    if b.len() == 0 {
        assert(a + b =~= a);
    } else {
        assert((a + b).drop_last() =~= a + b.drop_last());
        lemma_max_line_len_append(a, b.drop_last());
    }
}

proof fn lemma_max_line_len_nonneg(a: Seq<Vec<Span>>)
    ensures
        max_line_len(a) >= 0,
    decreases a.len(),
{
    if a.len() > 0 {
        lemma_max_line_len_nonneg(a.drop_last());
    }
}

/// What a render hands back besides the canvas.
#[derive(Clone, Copy, Debug, PartialEq, Eq, Structural)]
pub struct Totals {
    /// Global index one past the last rendered line.
    pub line_num: u32,
    pub longest_line_chars: usize,
    /// The background of the last file rendered.
    pub background: Option<Rgb>,
}

/// Renders the files at `kept` one after the other into `canvas`, each
/// starting where the previous one ended. Before each file it reads
/// `should_interrupt` and stops with `Cancelled` if it is set.
pub fn render_files(
    files: &Vec<Vec<Vec<Span>>>,
    kept: &Vec<usize>,
    canvas: &mut Canvas,
    ctx: &ChunkContext,
    should_interrupt: &AtomicBool,
) -> (r: Result<Totals, RenderError>)
    requires
        forall|k: int| 0 <= k < kept@.len() ==> kept@[k] < files@.len(),
        fits_canvas(*ctx, *old(canvas), 0, flat_lines(files@, kept@).len() as int),
    ensures
        r is Err ==> r == Err::<Totals, RenderError>(RenderError::Cancelled),
        kept@.len() == 0 ==> r is Ok,
        final(canvas).wf(),
        final(canvas).width == old(canvas).width,
        final(canvas).height == old(canvas).height,
        r is Ok ==> ({
            let t = r->Ok_0;
            let flat = flat_lines(files@, kept@);
            &&& shows_lines(*old(canvas), *final(canvas), flat, *ctx)
            &&& t.line_num == flat.len()
            &&& t.longest_line_chars == saturated(max_line_len(flat_text(flat)))
            &&& t.background == if kept@.len() > 0 {
                Some(background(*ctx, ctx.theme_background))
            } else {
                None::<Rgb>
            }
        }),
{
    let ghost start = *canvas;
    let ghost all = flat_lines(files@, kept@);
    let mut line_num: u32 = 0;
    let mut longest: usize = 0;
    let mut bg: Option<Rgb> = None;
    let mut k: usize = 0;
    while k < kept.len()
        invariant
            0 <= k <= kept@.len(),
            forall|j: int| 0 <= j < kept@.len() ==> kept@[j] < files@.len(),
            all == flat_lines(files@, kept@),
            start == *old(canvas),
            fits_canvas(*ctx, start, 0, all.len() as int),
            line_num == flat_lines(files@, kept@.take(k as int)).len(),
            flat_lines(files@, kept@.take(k as int)).len() <= all.len(),
            shows_lines(start, *canvas, flat_lines(files@, kept@.take(k as int)), *ctx),
            longest == saturated(max_line_len(flat_text(flat_lines(files@, kept@.take(k as int))))),
            bg == if k > 0 { Some(background(*ctx, ctx.theme_background)) } else { None::<Rgb> },
        decreases kept@.len() - k,
    {
        if should_interrupt.load(Ordering::Relaxed) {
            assert(canvas.wf() && canvas.width == start.width && canvas.height == start.height);
            return Err(RenderError::Cancelled);
        }
        let lines = &files[kept[k]];
        let ghost done = flat_lines(files@, kept@.take(k as int));
        let ghost next = flat_lines(files@, kept@.take(k as int + 1));
        proof {
            assert(kept@.take(k as int + 1).drop_last() =~= kept@.take(k as int));
            assert(next == done + lines@.map_values(|l: Vec<Span>| (l, k as int)));
            lemma_flat_prefix_len(files@, kept@, k as int + 1);
        }
        let file_ctx_k = ChunkContext { line_num, file_index: k, ..*ctx };
        let ghost prev = *canvas;
        let out = process(lines, canvas, &file_ctx_k);
        proof {
            assert forall|px: int, py: int| #![trigger canvas.pixel(px, py)]
                start.in_bounds(px, py) implies canvas.pixel(px, py) == {
                    let g = slot_of(*ctx, px, py);
                    if 0 <= g < next.len() {
                        line_color(file_ctx(*ctx, next[g].1), next[g].0@, px % ctx.column_width as int)
                    } else {
                        start.pixel(px, py)
                    }
                } by {
                assert(prev.pixel(px, py) == prev.pixel(px, py));
                let g = slot_of(*ctx, px, py);
                if line_num <= g < next.len() {
                    assert(next[g] == (lines@[g - line_num], k as int));
                }
            }
            assert(flat_text(next) =~= flat_text(done) + lines@);
            lemma_max_line_len_append(flat_text(done), lines@);
        }
        longest = if longest < out.longest_line_in_chars { out.longest_line_in_chars } else { longest };
        bg = out.background;
        line_num = line_num + lines.len() as u32;
        k = k + 1;
    }
    assert(kept@.take(kept@.len() as int) =~= kept@);
    Ok(Totals { line_num, longest_line_chars: longest, background: bg })
}

proof fn lemma_flat_prefix_len(files: Seq<Vec<Vec<Span>>>, kept: Seq<usize>, k: int)
    requires
        0 <= k <= kept.len(),
    ensures
        flat_lines(files, kept.take(k)).len() <= flat_lines(files, kept).len(),
    decreases kept.len() - k,
{
    if k < kept.len() {
        lemma_flat_prefix_len(files, kept, k + 1);
        assert(kept.take(k + 1).drop_last() =~= kept.take(k));
    } else {
        assert(kept.take(k) =~= kept);
    }
}

/// Global index of the first line of the file at position `k` of `kept`.
pub open spec fn file_start(files: Seq<Vec<Vec<Span>>>, kept: Seq<usize>, k: int) -> int {
    flat_lines(files, kept.take(k)).len() as int
}

/// Global line `g` belongs to the file at position `k` of `kept`.
pub open spec fn in_file(files: Seq<Vec<Vec<Span>>>, kept: Seq<usize>, k: int, g: int) -> bool {
    file_start(files, kept, k) <= g < file_start(files, kept, k) + files[kept[k] as int]@.len()
}

/// Line `g` belongs to a file among the first `j` that arrived, in `order`.
pub open spec fn arrived(files: Seq<Vec<Vec<Span>>>, kept: Seq<usize>, order: Seq<int>, j: int, g: int) -> bool {
    exists|i: int| 0 <= i < j && #[trigger] in_file(files, kept, order[i], g)
}

/// `canvases` records a collector taking the columns of the files in
/// `order`, one stitch after the other.
pub open spec fn collected(
    files: Seq<Vec<Vec<Span>>>,
    kept: Seq<usize>,
    ctx: ChunkContext,
    columns: Seq<Canvas>,
    order: Seq<int>,
    canvases: Seq<Canvas>,
) -> bool {
    &&& canvases.len() == order.len() + 1
    &&& forall|j: int| #![trigger order[j]] 0 <= j < order.len() ==> {
        &&& 0 <= order[j] < kept.len()
        &&& stitched(canvases[j], canvases[j + 1], columns[order[j]], file_start(files, kept, order[j]), ctx)
    }
}

proof fn lemma_flat_index(files: Seq<Vec<Vec<Span>>>, kept: Seq<usize>, k: int, m: int)
    requires
        0 <= k < m <= kept.len(),
        forall|q: int| 0 <= q < kept.len() ==> kept[q] < files.len(),
    ensures
        file_start(files, kept, k) + files[kept[k] as int]@.len() <= flat_lines(files, kept.take(m)).len(),
        forall|i: int| 0 <= i < files[kept[k] as int]@.len()
            ==> #[trigger] flat_lines(files, kept.take(m))[file_start(files, kept, k) + i] == (files[kept[k] as int]@[i], k),
    decreases m - k,
{
    assert(kept.take(m).drop_last() =~= kept.take(m - 1));
    if m == k + 1 {
    } else {
        lemma_flat_index(files, kept, k, m - 1);
    }
}

proof fn lemma_flat_covered(files: Seq<Vec<Vec<Span>>>, kept: Seq<usize>, m: int, g: int)
    requires
        0 <= m <= kept.len(),
        0 <= g < flat_lines(files, kept.take(m)).len(),
        forall|q: int| 0 <= q < kept.len() ==> kept[q] < files.len(),
    ensures
        exists|k: int| 0 <= k < m && #[trigger] in_file(files, kept, k, g),
    decreases m,
{
    assert(kept.take(m).drop_last() =~= kept.take(m - 1));
    if g < flat_lines(files, kept.take(m - 1)).len() {
        lemma_flat_covered(files, kept, m - 1, g);
        let k = choose|k: int| 0 <= k < m - 1 && #[trigger] in_file(files, kept, k, g);
        assert(in_file(files, kept, k, g));
    } else {
        assert(in_file(files, kept, m - 1, g));
    }
}

/// Rendering the files in parallel gives the sequential result: whatever
/// order the columns of the files arrive in, once each has been stitched
/// the canvas shows every line in its slot, in its file's colors, exactly
/// as `render_files` leaves it.
pub proof fn lemma_parallel_matches_sequential(
    files: Seq<Vec<Vec<Span>>>,
    kept: Seq<usize>,
    ctx: ChunkContext,
    columns: Seq<Canvas>,
    order: Seq<int>,
    canvases: Seq<Canvas>,
)
    requires
        forall|q: int| 0 <= q < kept.len() ==> kept[q] < files.len(),
        fits_canvas(ctx, canvases[0], 0, flat_lines(files, kept).len() as int),
        columns.len() == kept.len(),
        forall|k: int| 0 <= k < kept.len() ==> column_of(#[trigger] columns[k], files[kept[k] as int]@, file_ctx(ctx, k)),
        collected(files, kept, ctx, columns, order, canvases),
        forall|k: int| 0 <= k < kept.len() ==> #[trigger] order.contains(k),
    ensures
        shows_lines(canvases[0], canvases.last(), flat_lines(files, kept), ctx),
{
    let base = canvases[0];
    let flat = flat_lines(files, kept);
    assert(kept.take(kept.len() as int) =~= kept);
    lemma_collected_prefix(files, kept, ctx, columns, order, canvases, order.len() as int);
    let last = canvases[order.len() as int];
    assert forall|px: int, py: int| #![trigger last.pixel(px, py)]
        base.in_bounds(px, py) implies last.pixel(px, py) == {
            let g = slot_of(ctx, px, py);
            if 0 <= g < flat.len() {
                line_color(file_ctx(ctx, flat[g].1), flat[g].0@, px % ctx.column_width as int)
            } else {
                base.pixel(px, py)
            }
        } by {
        let g = slot_of(ctx, px, py);
        assert(g >= 0) by (nonlinear_arith)
            requires px >= 0, py >= 0, g == (px / ctx.column_width as int) * ctx.lines_per_column + py / ctx.line_height as int,
                ctx.column_width > 0, ctx.line_height > 0;
        if g < flat.len() {
            lemma_flat_covered(files, kept, kept.len() as int, g);
            let k = choose|k: int| 0 <= k < kept.len() && #[trigger] in_file(files, kept, k, g);
            assert(order.contains(k));
            let i = choose|i: int| 0 <= i < order.len() && order[i] == k;
            assert(in_file(files, kept, order[i], g));
        } else {
            if arrived(files, kept, order, order.len() as int, g) {
                let i = choose|i: int| 0 <= i < order.len() && #[trigger] in_file(files, kept, order[i], g);
                lemma_flat_index(files, kept, order[i], kept.len() as int);
            }
        }
    }
}

proof fn lemma_collected_prefix(
    files: Seq<Vec<Vec<Span>>>,
    kept: Seq<usize>,
    ctx: ChunkContext,
    columns: Seq<Canvas>,
    order: Seq<int>,
    canvases: Seq<Canvas>,
    j: int,
)
    requires
        0 <= j <= order.len(),
        forall|q: int| 0 <= q < kept.len() ==> kept[q] < files.len(),
        fits_canvas(ctx, canvases[0], 0, flat_lines(files, kept).len() as int),
        columns.len() == kept.len(),
        forall|k: int| 0 <= k < kept.len() ==> column_of(#[trigger] columns[k], files[kept[k] as int]@, file_ctx(ctx, k)),
        collected(files, kept, ctx, columns, order, canvases),
    ensures
        canvases[j].wf(),
        canvases[j].width == canvases[0].width,
        canvases[j].height == canvases[0].height,
        forall|px: int, py: int| #![trigger canvases[j].pixel(px, py)]
            canvases[0].in_bounds(px, py) ==> canvases[j].pixel(px, py) == {
                let g = slot_of(ctx, px, py);
                let flat = flat_lines(files, kept);
                if arrived(files, kept, order, j, g) {
                    line_color(file_ctx(ctx, flat[g].1), flat[g].0@, px % ctx.column_width as int)
                } else {
                    canvases[0].pixel(px, py)
                }
            },
    decreases j,
{
    let base = canvases[0];
    let flat = flat_lines(files, kept);
    assert(kept.take(kept.len() as int) =~= kept);
    if j > 0 {
        lemma_collected_prefix(files, kept, ctx, columns, order, canvases, j - 1);
        let k = order[j - 1];
        let prev = canvases[j - 1];
        let cur = canvases[j];
        let col = columns[k];
        let lines = files[kept[k] as int]@;
        let start = file_start(files, kept, k);
        let cw = ctx.column_width as int;
        let lh = ctx.line_height as int;
        assert(column_of(col, lines, file_ctx(ctx, k)));
        assert(col.height as int / lh == lines.len()) by {
            lemma_fundamental_div_mod_converse(col.height as int, lh, lines.len() as int, 0);
        }
        lemma_flat_index(files, kept, k, kept.len() as int);
        assert forall|px: int, py: int| #![trigger cur.pixel(px, py)]
            base.in_bounds(px, py) implies cur.pixel(px, py) == {
                let g = slot_of(ctx, px, py);
                if arrived(files, kept, order, j, g) {
                    line_color(file_ctx(ctx, flat[g].1), flat[g].0@, px % cw)
                } else {
                    base.pixel(px, py)
                }
            } by {
            assert(prev.pixel(px, py) == prev.pixel(px, py));
            let g = slot_of(ctx, px, py);
            if in_file(files, kept, k, g) {
                let q = g - start;
                let x = px % cw;
                let r = py % lh;
                assert(0 <= x < cw) by (nonlinear_arith)
                    requires cw > 0, x == px % cw;
                assert(0 <= r < lh) by (nonlinear_arith)
                    requires lh > 0, r == py % lh;
                lemma_fundamental_div_mod_converse(q * lh + r, lh, q, r);
                assert(q * lh + r < lines.len() * lh) by (nonlinear_arith)
                    requires 0 <= q < lines.len(), 0 <= r < lh;
                assert(col.in_bounds(x, q * lh + r));
                assert(col.pixel(x, q * lh + r) == line_color(file_ctx(ctx, k), lines[q]@, x));
                assert(flat[start + q] == (lines[q], k));
                assert(arrived(files, kept, order, j, g));
            } else {
                if arrived(files, kept, order, j, g) {
                    let i = choose|i: int| 0 <= i < j && #[trigger] in_file(files, kept, order[i], g);
                    assert(i < j - 1);
                    assert(arrived(files, kept, order, j - 1, g));
                } else {
                    assert forall|i: int| 0 <= i < j - 1 implies !#[trigger] in_file(files, kept, order[i], g) by {
                        assert(!(0 <= i < j && in_file(files, kept, order[i], g)));
                    }
                }
            }
        }
    }
}

} // verus!
