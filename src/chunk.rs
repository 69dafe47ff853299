use vstd::arithmetic::div_mod::{lemma_fundamental_div_mod, lemma_fundamental_div_mod_converse};
use vstd::prelude::*;

use crate::canvas::{Canvas, Rgb};
use crate::layout::{calc_offsets, lemma_slot_in_bounds, offsets_of};

verus! {

/// A run of characters that the highlighter gave one style.
#[derive(Clone, Debug)]
pub struct Span {
    pub fg: Rgb,
    pub bg: Rgb,
    pub text: Vec<char>,
}

/// What a chunk needs to know of the layout and the colors.
#[derive(Clone, Copy, Debug)]
pub struct ChunkContext {
    pub column_width: u32,
    pub line_height: u32,
    /// Global index of the chunk's first line.
    pub line_num: u32,
    pub lines_per_column: u32,
    /// Replaces every span's foreground when set.
    pub fg_color: Option<Rgb>,
    /// Replaces every span's and the theme's background when set.
    pub bg_color: Option<Rgb>,
    /// The theme's default background, for the cells past a line's end.
    pub theme_background: Rgb,
    pub file_index: usize,
    /// How strongly foregrounds are shifted per file; 0 leaves them as they are.
    pub color_modulation: u8,
}

/// What rendering one chunk reports.
#[derive(Clone, Copy, Debug, PartialEq, Eq, Structural)]
pub struct Outcome {
    pub longest_line_in_chars: usize,
    pub background: Option<Rgb>,
}

/// One character with its style, as it lies in a line.
pub open spec fn span_cells(span: Span) -> Seq<(char, Rgb, Rgb)> {
    span.text@.map_values(|c: char| (c, span.fg, span.bg))
}

/// The characters of a highlighted line, left to right, with their styles.
pub open spec fn cells(line: Seq<Span>) -> Seq<(char, Rgb, Rgb)>
    decreases line.len(),
{
    if line.len() == 0 {
        Seq::empty()
    } else {
        cells(line.drop_last()) + span_cells(line.last())
    }
}

pub open spec fn is_blank(c: char) -> bool {
    c == ' ' || c == '\t' || c == '\n' || c == '\r' || c == '\x0c'
}

/// A per-file shift in `0..256` for one channel, so that neighbouring files differ.
pub open spec fn file_key(file_index: int, channel: int) -> int {
    (file_index * 97 + channel * 61 + 13) % 256
}

/// Darkens channel value `c` by `modulation / 255` of the file's key.
pub open spec fn modulate(c: u8, key: int, modulation: u8) -> u8 {
    (c as int - (c as int * modulation as int * key) / (65025 as int)) as u8
}

pub open spec fn foreground(ctx: ChunkContext, fg: Rgb) -> Rgb {
    let base = match ctx.fg_color {
        Some(c) => c,
        None => fg,
    };
    Rgb {
        r: modulate(base.r, file_key(ctx.file_index as int, 0), ctx.color_modulation),
        g: modulate(base.g, file_key(ctx.file_index as int, 1), ctx.color_modulation),
        b: modulate(base.b, file_key(ctx.file_index as int, 2), ctx.color_modulation),
    }
}

pub open spec fn background(ctx: ChunkContext, bg: Rgb) -> Rgb {
    match ctx.bg_color {
        Some(c) => c,
        None => bg,
    }
}

pub open spec fn cell_color(ctx: ChunkContext, cell: (char, Rgb, Rgb)) -> Rgb {
    if is_blank(cell.0) {
        background(ctx, cell.2)
    } else {
        foreground(ctx, cell.1)
    }
}

/// The color of pixel column `x` of a line.
pub open spec fn line_color(ctx: ChunkContext, line: Seq<Span>, x: int) -> Rgb {
    if x < cells(line).len() {
        cell_color(ctx, cells(line)[x])
    } else {
        background(ctx, ctx.theme_background)
    }
}

pub open spec fn line_len(line: Seq<Span>) -> int {
    cells(line).len() as int
}

fn modulate_channel(c: u8, key: u32, modulation: u8) -> (r: u8)
    requires
        key < 256,
    ensures
        r == modulate(c, key as int, modulation),
{
    proof {
        assert(c as u32 * modulation as u32 <= 65025) by (nonlinear_arith)
            requires c <= 255, modulation <= 255;
    }
    let cm: u32 = c as u32 * modulation as u32;
    proof {
        let ghost (ci, mi, ki) = (c as int, modulation as int, key as int);
        assert(mi * ki <= 65025) by (nonlinear_arith)
            requires 0 <= mi <= 255, 0 <= ki < 256;
        assert(ci * mi * ki <= ci * 65025) by (nonlinear_arith)
            requires mi * ki <= 65025, ci >= 0, mi >= 0, ki >= 0;
        assert(cm * ki <= 255 * 65025) by (nonlinear_arith)
            requires cm == ci * mi, ci * mi * ki <= ci * 65025, ci <= 255;
        let ghost x = ci * mi * ki;
        assert(x / 65025 <= ci) by (nonlinear_arith)
            requires x <= ci * 65025, x >= 0;
    }
    let product: u32 = cm * key;
    c - (product / 65025) as u8
}

fn key_of(file_index: usize, channel: u32) -> (r: u32)
    requires
        channel < 3,
    ensures
        r as int == file_key(file_index as int, channel as int),
        r < 256,
{
    let f = (file_index % 256) as u32;
    proof {
        let ghost (fi, ch) = (file_index as int, channel as int);
        assert((fi * 97 + ch * 61 + 13) % 256 == ((fi % 256) * 97 + ch * 61 + 13) % 256) by (nonlinear_arith)
            requires fi >= 0, ch >= 0;
    }
    (f * 97 + channel * 61 + 13) % 256
}

fn cell_color_exec(ctx: &ChunkContext, ch: char, fg: Rgb, bg: Rgb) -> (r: Rgb)
    ensures
        r == cell_color(*ctx, (ch, fg, bg)),
{
    if ch == ' ' || ch == '\t' || ch == '\n' || ch == '\r' || ch == '\x0c' {
        match ctx.bg_color {
            Some(c) => c,
            None => bg,
        }
    } else {
        let base = match ctx.fg_color {
            Some(c) => c,
            None => fg,
        };
        Rgb {
            r: modulate_channel(base.r, key_of(ctx.file_index, 0), ctx.color_modulation),
            g: modulate_channel(base.g, key_of(ctx.file_index, 1), ctx.color_modulation),
            b: modulate_channel(base.b, key_of(ctx.file_index, 2), ctx.color_modulation),
        }
    }
}

pub open spec fn min(a: int, b: int) -> int {
    if a < b { a } else { b }
}

/// A count held in a `usize`, stopping at its largest value.
pub open spec fn saturated(n: int) -> int {
    min(n, usize::MAX as int)
}

/// The longest line of a chunk, in characters.
pub open spec fn max_line_len(lines: Seq<Vec<Span>>) -> int
    decreases lines.len(),
{
    if lines.len() == 0 {
        0
    } else {
        let rest = max_line_len(lines.drop_last());
        let last = line_len(lines.last()@);
        if rest < last { last } else { rest }
    }
}

/// The global line slot that pixel `(px, py)` of a canvas laid out by `ctx` belongs to.
pub open spec fn slot_of(ctx: ChunkContext, px: int, py: int) -> int {
    (px / ctx.column_width as int) * ctx.lines_per_column + py / ctx.line_height as int
}

/// `new` is `old` with the slots of `lines` painted, from global line `first` on.
pub open spec fn rendered(old: Canvas, new: Canvas, lines: Seq<Vec<Span>>, first: int, ctx: ChunkContext) -> bool {
    &&& new.wf()
    &&& new.width == old.width
    &&& new.height == old.height
    &&& forall|px: int, py: int| #![trigger new.pixel(px, py)]
        old.in_bounds(px, py) ==> new.pixel(px, py) == {
            let g = slot_of(ctx, px, py);
            if first <= g < first + lines.len() {
                line_color(ctx, lines[g - first]@, px % ctx.column_width as int)
            } else {
                old.pixel(px, py)
            }
        }
}

/// The layout of `ctx` fits `canvas`, with room for `n` lines from global line `first` on.
pub open spec fn fits_canvas(ctx: ChunkContext, canvas: Canvas, first: int, n: int) -> bool {
    &&& canvas.wf()
    &&& ctx.column_width > 0
    &&& ctx.line_height > 0
    &&& ctx.lines_per_column > 0
    &&& canvas.height == ctx.lines_per_column * ctx.line_height
    &&& canvas.width as int % ctx.column_width as int == 0
    &&& 0 <= first
    &&& first + n <= ctx.lines_per_column * (canvas.width as int / ctx.column_width as int)
    &&& first + n <= u32::MAX
}

proof fn lemma_cells_push(line: Seq<Span>, i: int)
    requires
        0 <= i < line.len(),
    ensures
        cells(line.take(i + 1)) == cells(line.take(i)) + span_cells(line[i]),
{
    assert(line.take(i + 1).drop_last() =~= line.take(i));
}

/// The colors of the `column_width` pixel columns of one line, and its length in characters.
fn line_colors(ctx: &ChunkContext, line: &Vec<Span>) -> (r: (Vec<Rgb>, usize))
    ensures
        r.0@.len() == ctx.column_width,
        forall|x: int| 0 <= x < ctx.column_width ==> r.0@[x] == line_color(*ctx, line@, x),
        r.1 == saturated(line_len(line@)),
{
    let cw = ctx.column_width as usize;
    let mut out: Vec<Rgb> = Vec::new();
    let mut count: usize = 0;
    let mut i: usize = 0;
    while i < line.len()
        invariant
            0 <= i <= line@.len(),
            cw == ctx.column_width,
            out@.len() == min(cells(line@.take(i as int)).len() as int, cw as int),
            forall|x: int| 0 <= x < out@.len() ==> out@[x] == cell_color(*ctx, cells(line@.take(i as int))[x]),
            count == saturated(cells(line@.take(i as int)).len() as int),
        decreases line@.len() - i,
    {
        let span = &line[i];
        let ghost pre = cells(line@.take(i as int));
        let mut j: usize = 0;
        while j < span.text.len()
            invariant
                0 <= j <= span.text@.len(),
                i < line@.len(),
                span == line@[i as int],
                cw == ctx.column_width,
                pre == cells(line@.take(i as int)),
                out@.len() == min(pre.len() + j, cw as int),
                forall|x: int| 0 <= x < out@.len() ==> out@[x] == cell_color(*ctx, (pre + span_cells(*span))[x]),
            decreases span.text@.len() - j,
        {
            if out.len() < cw {
                let c = cell_color_exec(ctx, span.text[j], span.fg, span.bg);
                out.push(c);
            }
            j = j + 1;
        }
        proof {
            lemma_cells_push(line@, i as int);
        }
        let len = span.text.len();
        count = if count <= usize::MAX - len { count + len } else { usize::MAX };
        i = i + 1;
    }
    assert(line@.take(line@.len() as int) =~= line@);
    while out.len() < cw
        invariant
            cw == ctx.column_width,
            out@.len() <= cw,
            out@.len() >= min(cells(line@).len() as int, cw as int),
            forall|x: int| 0 <= x < out@.len() ==> out@[x] == line_color(*ctx, line@, x),
        decreases cw - out@.len(),
    {
        let bg = match ctx.bg_color {
            Some(c) => c,
            None => ctx.theme_background,
        };
        out.push(bg);
    }
    (out, count)
}

/// Paints `colors` into rows `y0 .. y0 + line_height`, from column `x0` on.
fn paint_line(canvas: &mut Canvas, x0: u32, y0: u32, colors: &Vec<Rgb>, line_height: u32)
    requires
        old(canvas).wf(),
        x0 + colors@.len() <= old(canvas).width,
        y0 + line_height <= old(canvas).height,
    ensures
        final(canvas).wf(),
        final(canvas).width == old(canvas).width,
        final(canvas).height == old(canvas).height,
        forall|px: int, py: int| #![trigger final(canvas).pixel(px, py)]
            old(canvas).in_bounds(px, py) ==> final(canvas).pixel(px, py) == if x0 <= px < x0 + colors@.len()
                && y0 <= py < y0 + line_height {
                colors@[px - x0]
            } else {
                old(canvas).pixel(px, py)
            },
{
    let ghost start = *canvas;
    let n = colors.len();
    let mut dy: u32 = 0;
    while dy < line_height
        invariant
            0 <= dy <= line_height,
            n == colors@.len(),
            canvas.wf(),
            canvas.width == start.width,
            canvas.height == start.height,
            x0 + n <= start.width,
            y0 + line_height <= start.height,
            forall|px: int, py: int| #![trigger canvas.pixel(px, py)]
                start.in_bounds(px, py) ==> canvas.pixel(px, py) == if x0 <= px < x0 + n && y0 <= py < y0 + dy {
                    colors@[px - x0]
                } else {
                    start.pixel(px, py)
                },
        decreases line_height - dy,
    {
        let mut x: usize = 0;
        while x < n
            invariant
                0 <= x <= n,
                dy < line_height,
                n == colors@.len(),
                canvas.wf(),
                canvas.width == start.width,
                canvas.height == start.height,
                x0 + n <= start.width,
                y0 + line_height <= start.height,
                forall|px: int, py: int| #![trigger canvas.pixel(px, py)]
                    start.in_bounds(px, py) ==> canvas.pixel(px, py) == if (x0 <= px < x0 + n && y0 <= py < y0 + dy)
                        || (x0 <= px < x0 + x && py == y0 + dy) {
                        colors@[px - x0]
                    } else {
                        start.pixel(px, py)
                    },
            decreases n - x,
        {
            canvas.put_pixel(x0 + x as u32, y0 + dy, colors[x]);
            x = x + 1;
        }
        dy = dy + 1;
    }
}

/// Pixel `(px, py)` lies in the rectangle of global line `g` exactly when
/// its slot is `g`, and then its column within the line is `px % column_width`.
proof fn lemma_slot(ctx: ChunkContext, px: int, py: int, g: int)
    requires
        ctx.column_width > 0,
        ctx.line_height > 0,
        ctx.lines_per_column > 0,
        0 <= px,
        0 <= py < ctx.lines_per_column * ctx.line_height,
        0 <= g,
    ensures
        ({
            let (xo, yo) = offsets_of(g, ctx.lines_per_column as int, ctx.column_width as int, ctx.line_height as int);
            (xo <= px < xo + ctx.column_width && yo <= py < yo + ctx.line_height) <==> slot_of(ctx, px, py) == g
        }),
        slot_of(ctx, px, py) == g ==> px - offsets_of(
            g,
            ctx.lines_per_column as int,
            ctx.column_width as int,
            ctx.line_height as int,
        ).0 == px % ctx.column_width as int,
        slot_of(ctx, px, py) == g ==> py - offsets_of(
            g,
            ctx.lines_per_column as int,
            ctx.column_width as int,
            ctx.line_height as int,
        ).1 == py % ctx.line_height as int,
{
    let cw = ctx.column_width as int;
    let lh = ctx.line_height as int;
    let lpc = ctx.lines_per_column as int;
    let q = g / lpc;
    let r = g % lpc;
    lemma_fundamental_div_mod(g, lpc);
    lemma_fundamental_div_mod(px, cw);
    lemma_fundamental_div_mod(py, lh);
    assert(0 <= py / lh < lpc) by (nonlinear_arith)
        requires 0 <= py < lpc * lh, lh > 0, lpc > 0;
    assert(q * lpc == lpc * q) by (nonlinear_arith);
    if q * cw <= px < q * cw + cw && r * lh <= py < r * lh + lh {
        lemma_fundamental_div_mod_converse(px, cw, q, px - q * cw);
        lemma_fundamental_div_mod_converse(py, lh, r, py - r * lh);
    }
    if slot_of(ctx, px, py) == g {
        lemma_fundamental_div_mod_converse(g, lpc, px / cw, py / lh);
        assert(cw * (px / cw) == (px / cw) * cw) by (nonlinear_arith);
        assert(lh * (py / lh) == (py / lh) * lh) by (nonlinear_arith);
    }
}

/// Renders the highlighted `lines` of one file into `canvas`, line `l`
/// going to the slot of global line `ctx.line_num + l`. Reports the
/// longest line and the background used past line ends.
pub fn process(lines: &Vec<Vec<Span>>, canvas: &mut Canvas, ctx: &ChunkContext) -> (r: Outcome)
    requires
        fits_canvas(*ctx, *old(canvas), ctx.line_num as int, lines@.len() as int),
    ensures
        rendered(*old(canvas), *final(canvas), lines@, ctx.line_num as int, *ctx),
        r.longest_line_in_chars == saturated(max_line_len(lines@)),
        r.background == Some(background(*ctx, ctx.theme_background)),
{
    let ghost start = *canvas;
    let ghost first = ctx.line_num as int;
    let mut longest: usize = 0;
    let mut l: usize = 0;
    while l < lines.len()
        invariant
            0 <= l <= lines@.len(),
            fits_canvas(*ctx, start, first, lines@.len() as int),
            first == ctx.line_num,
            rendered(start, *canvas, lines@.take(l as int), first, *ctx),
            longest == saturated(max_line_len(lines@.take(l as int))),
        decreases lines@.len() - l,
    {
        let (colors, len) = line_colors(ctx, &lines[l]);
        let g = ctx.line_num + l as u32;
        let ghost cols = start.width as int / ctx.column_width as int;
        proof {
            lemma_fundamental_div_mod(start.width as int, ctx.column_width as int);
            assert(cols * ctx.column_width == start.width) by (nonlinear_arith)
                requires start.width == ctx.column_width * cols + 0, cols >= 0;
            lemma_slot_in_bounds(g as int, ctx.lines_per_column as int, cols, ctx.column_width as int, ctx.line_height as int);
        }
        let (xo, yo) = calc_offsets(g, ctx.lines_per_column, ctx.column_width, ctx.line_height);
        let ghost prev = *canvas;
        paint_line(canvas, xo, yo, &colors, ctx.line_height);
        proof {
            let ghost done = lines@.take(l as int + 1);
            assert forall|px: int, py: int| #![trigger canvas.pixel(px, py)]
                start.in_bounds(px, py) implies canvas.pixel(px, py) == {
                    let s = slot_of(*ctx, px, py);
                    if first <= s < first + done.len() {
                        line_color(*ctx, done[s - first]@, px % ctx.column_width as int)
                    } else {
                        start.pixel(px, py)
                    }
                } by {
                assert(prev.pixel(px, py) == prev.pixel(px, py));
                lemma_slot(*ctx, px, py, g as int);
            }
            assert(done.drop_last() =~= lines@.take(l as int));
        }
        longest = if longest < len { len } else { longest };
        l = l + 1;
    }
    assert(lines@.take(lines@.len() as int) =~= lines@);
    let bg = match ctx.bg_color {
        Some(c) => c,
        None => ctx.theme_background,
    };
    Outcome { longest_line_in_chars: longest, background: Some(bg) }
}

/// Paints every row of the slot of global line `g` with `colors`.
pub(crate) fn paint_slot(canvas: &mut Canvas, g: u32, colors: &Vec<Rgb>, ctx: &ChunkContext)
    requires
        fits_canvas(*ctx, *old(canvas), g as int, 1),
        colors@.len() == ctx.column_width,
    ensures
        final(canvas).wf(),
        final(canvas).width == old(canvas).width,
        final(canvas).height == old(canvas).height,
        forall|px: int, py: int| #![trigger final(canvas).pixel(px, py)]
            old(canvas).in_bounds(px, py) ==> final(canvas).pixel(px, py) == if slot_of(*ctx, px, py) == g {
                colors@[px % ctx.column_width as int]
            } else {
                old(canvas).pixel(px, py)
            },
{
    let ghost start = *canvas;
    let ghost cols = start.width as int / ctx.column_width as int;
    proof {
        lemma_fundamental_div_mod(start.width as int, ctx.column_width as int);
        assert(cols * ctx.column_width == start.width) by (nonlinear_arith)
            requires start.width == ctx.column_width * cols + 0, cols >= 0;
        lemma_slot_in_bounds(g as int, ctx.lines_per_column as int, cols, ctx.column_width as int, ctx.line_height as int);
    }
    let (xo, yo) = calc_offsets(g, ctx.lines_per_column, ctx.column_width, ctx.line_height);
    paint_line(canvas, xo, yo, colors, ctx.line_height);
    proof {
        assert forall|px: int, py: int| #![trigger canvas.pixel(px, py)]
            start.in_bounds(px, py) implies canvas.pixel(px, py) == if slot_of(*ctx, px, py) == g {
                colors@[px % ctx.column_width as int]
            } else {
                start.pixel(px, py)
            } by {
            lemma_slot(*ctx, px, py, g as int);
        }
    }
}

/// Paints row `dy` of the slot of global line `g` with `colors`.
pub(crate) fn paint_row(canvas: &mut Canvas, g: u32, dy: u32, colors: &Vec<Rgb>, ctx: &ChunkContext)
    requires
        fits_canvas(*ctx, *old(canvas), g as int, 1),
        colors@.len() == ctx.column_width,
        dy < ctx.line_height,
    ensures
        final(canvas).wf(),
        final(canvas).width == old(canvas).width,
        final(canvas).height == old(canvas).height,
        forall|px: int, py: int| #![trigger final(canvas).pixel(px, py)]
            old(canvas).in_bounds(px, py) ==> final(canvas).pixel(px, py) == if slot_of(*ctx, px, py) == g
                && py % ctx.line_height as int == dy {
                colors@[px % ctx.column_width as int]
            } else {
                old(canvas).pixel(px, py)
            },
{
    let ghost start = *canvas;
    let ghost cols = start.width as int / ctx.column_width as int;
    proof {
        lemma_fundamental_div_mod(start.width as int, ctx.column_width as int);
        assert(cols * ctx.column_width == start.width) by (nonlinear_arith)
            requires start.width == ctx.column_width * cols + 0, cols >= 0;
        lemma_slot_in_bounds(g as int, ctx.lines_per_column as int, cols, ctx.column_width as int, ctx.line_height as int);
    }
    let (xo, yo) = calc_offsets(g, ctx.lines_per_column, ctx.column_width, ctx.line_height);
    paint_line(canvas, xo, yo + dy, colors, 1);
    proof {
        assert forall|px: int, py: int| #![trigger canvas.pixel(px, py)]
            start.in_bounds(px, py) implies canvas.pixel(px, py) == if slot_of(*ctx, px, py) == g
                && py % ctx.line_height as int == dy {
                colors@[px % ctx.column_width as int]
            } else {
                start.pixel(px, py)
            } by {
            lemma_slot(*ctx, px, py, g as int);
        }
    }
}

} // verus!
