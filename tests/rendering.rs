use codevis::{
    absorb, fill_background, process, render, render_column, render_files, stitch, AspectRatio,
    Canvas, ChunkContext, Options, Outcome, RenderError, Rgb, Span, Totals,
};
use std::sync::atomic::AtomicBool;

const FG: Rgb = Rgb { r: 200, g: 100, b: 50 };
const BG: Rgb = Rgb { r: 1, g: 2, b: 3 };
const THEME_BG: Rgb = Rgb { r: 9, g: 9, b: 9 };
const BLACK: Rgb = Rgb { r: 0, g: 0, b: 0 };

fn line(text: &str) -> Vec<Span> {
    vec![Span { fg: FG, bg: BG, text: text.chars().collect() }]
}

fn file(lines: &[&str]) -> Vec<Vec<Span>> {
    lines.iter().map(|l| line(l)).collect()
}

fn ctx(column_width: u32, line_height: u32, lines_per_column: u32, line_num: u32) -> ChunkContext {
    ChunkContext {
        column_width,
        line_height,
        line_num,
        lines_per_column,
        fg_color: None,
        bg_color: None,
        theme_background: THEME_BG,
        file_index: 0,
        color_modulation: 0,
    }
}

fn options(column_width: u32, line_height: u32) -> Options {
    Options {
        column_width,
        line_height,
        target_aspect_ratio: AspectRatio { width: 1, height: 1 },
        threads: 1,
        fg_color: None,
        bg_color: None,
        highlight_truncated_lines: false,
        display_to_be_processed_file: false,
        theme: "base".to_string(),
        force_full_columns: false,
        plain: false,
        ignore_files_without_syntax: true,
        color_modulation: 0,
    }
}

fn pixels(c: &Canvas) -> Vec<Rgb> {
    let mut out = Vec::new();
    for y in 0..c.height {
        for x in 0..c.width {
            out.push(c.get_pixel(x, y));
        }
    }
    out
}

#[test]
fn chunk_paints_each_line_in_its_slot() {
    let mut canvas = Canvas::new(8, 4, BLACK);
    let lines = file(&["ab", " c"]);
    let out = process(&lines, &mut canvas, &ctx(4, 2, 2, 1));
    assert_eq!(out, Outcome { longest_line_in_chars: 2, background: Some(THEME_BG) });
    // Slot 0 (column 0, rows 0..2) is untouched.
    assert_eq!(canvas.get_pixel(0, 0), BLACK);
    // Slot 1: column 0, rows 2..4 hold "ab" then the theme background.
    for y in 2..4 {
        assert_eq!(canvas.get_pixel(0, y), FG);
        assert_eq!(canvas.get_pixel(1, y), FG);
        assert_eq!(canvas.get_pixel(2, y), THEME_BG);
        assert_eq!(canvas.get_pixel(3, y), THEME_BG);
    }
    // Slot 2: column 1, rows 0..2 hold " c": a blank then ink.
    for y in 0..2 {
        assert_eq!(canvas.get_pixel(4, y), BG);
        assert_eq!(canvas.get_pixel(5, y), FG);
        assert_eq!(canvas.get_pixel(6, y), THEME_BG);
    }
    // Slot 3 is untouched.
    assert_eq!(canvas.get_pixel(4, 2), BLACK);
}

#[test]
fn long_lines_are_cut_at_the_column() {
    let mut canvas = Canvas::new(2, 1, BLACK);
    let out = process(&file(&["abcdef"]), &mut canvas, &ctx(2, 1, 1, 0));
    assert_eq!(out.longest_line_in_chars, 6);
    assert_eq!(pixels(&canvas), vec![FG, FG]);
}

#[test]
fn empty_file_reports_nothing() {
    let mut canvas = Canvas::new(2, 1, BLACK);
    let out = process(&Vec::new(), &mut canvas, &ctx(2, 1, 1, 0));
    assert_eq!(out.longest_line_in_chars, 0);
    assert_eq!(pixels(&canvas), vec![BLACK, BLACK]);
}

#[test]
fn overrides_and_modulation() {
    let mut c = ctx(3, 1, 1, 0);
    c.color_modulation = 255;
    let mut canvas = Canvas::new(3, 1, BLACK);
    process(&file(&["x "]), &mut canvas, &c);
    // Keys for file 0 are 13, 74 and 135.
    assert_eq!(canvas.get_pixel(0, 0), Rgb { r: 190, g: 71, b: 24 });
    assert_eq!(canvas.get_pixel(1, 0), BG);

    let mut c = ctx(3, 1, 1, 0);
    c.fg_color = Some(Rgb { r: 7, g: 7, b: 7 });
    c.bg_color = Some(Rgb { r: 5, g: 5, b: 5 });
    let mut canvas = Canvas::new(3, 1, BLACK);
    process(&file(&["x "]), &mut canvas, &c);
    assert_eq!(
        pixels(&canvas),
        vec![Rgb { r: 7, g: 7, b: 7 }, Rgb { r: 5, g: 5, b: 5 }, Rgb { r: 5, g: 5, b: 5 }]
    );
}

#[test]
fn column_then_stitch_equals_direct_render() {
    let lines = file(&["ab", " c", "d"]);
    let c = ctx(3, 2, 2, 1);
    let mut direct = Canvas::new(6, 4, BLACK);
    process(&lines, &mut direct, &c);

    let (column, out) = render_column(&lines, &c);
    assert_eq!((column.width, column.height), (3, 6));
    assert_eq!(out.longest_line_in_chars, 2);
    let mut stitched = Canvas::new(6, 4, BLACK);
    stitch(&mut stitched, &column, 1, &c);
    assert_eq!(pixels(&stitched), pixels(&direct));
}

#[test]
fn fill_paints_the_trailing_slots() {
    let mut canvas = Canvas::new(2, 2, BLACK);
    fill_background(&mut canvas, 3, &ctx(1, 1, 2, 0), Some(BG));
    assert_eq!(pixels(&canvas), vec![BLACK, BLACK, BLACK, BG]);
    let mut canvas = Canvas::new(2, 2, BG);
    fill_background(&mut canvas, 1, &ctx(1, 1, 2, 0), None);
    assert_eq!(pixels(&canvas), vec![BG, BLACK, BLACK, BLACK]);
}

#[test]
fn render_without_lines_fails_before_allocating() {
    let flag = AtomicBool::new(false);
    let files = vec![Vec::new(), Vec::new()];
    let r = render(&files, &vec![true, true], &vec!["base".to_string()], THEME_BG, &options(4, 1), &flag);
    assert_eq!(r.unwrap_err(), RenderError::NoRenderableLines { num_files: 2 });
}

#[test]
fn render_with_unknown_theme_lists_themes() {
    let flag = AtomicBool::new(false);
    let files = vec![file(&["a"])];
    let mut o = options(4, 1);
    o.theme = "missing".to_string();
    match render(&files, &vec![true], &vec!["base".to_string(), "dark".to_string()], THEME_BG, &o, &flag) {
        Err(RenderError::ThemeNotFound { available, .. }) => {
            assert_eq!(available, vec!["base".to_string(), "dark".to_string()])
        }
        other => panic!("unexpected {:?}", other.map(|r| r.num_ignored)),
    }
}

#[test]
fn cancelled_sequential_render_touches_no_file() {
    let flag = AtomicBool::new(true);
    let files: Vec<Vec<Vec<Span>>> = (0..100).map(|_| file(&["a"])).collect();
    let kept: Vec<usize> = (0..100).collect();
    let mut canvas = Canvas::new(10, 10, BLACK);
    let r = render_files(&files, &kept, &mut canvas, &ctx(1, 1, 10, 0), &flag);
    assert_eq!(r, Err(RenderError::Cancelled));
    assert!(pixels(&canvas).iter().all(|p| *p == BLACK));
    let r = render(&files, &vec![true; 100], &vec!["base".to_string()], THEME_BG, &options(1, 1), &flag);
    assert_eq!(r.unwrap_err(), RenderError::Cancelled);
}

#[test]
fn cancelled_collector_stops_after_one_file() {
    let flag = AtomicBool::new(true);
    let c = ctx(1, 1, 10, 0);
    let mut canvas = Canvas::new(10, 10, BLACK);
    let mut totals = Totals { line_num: 0, longest_line_chars: 0, background: None };
    let (column, out) = render_column(&file(&["a"]), &c);
    let r = absorb(&mut totals, &mut canvas, &column, &out, 0, &c, &flag);
    assert_eq!(r, Err(RenderError::Cancelled));
    // One file of the hundred went in before the flag was seen.
    assert_eq!(totals.line_num, 1);
    assert_eq!(canvas.get_pixel(0, 0), FG);
}

#[test]
fn unsyntaxed_file_is_left_out_and_padded() {
    let flag = AtomicBool::new(false);
    let files = vec![file(&["a", "a"]), file(&["zz", "zz"]), file(&["b", "b"])];
    let r = render(
        &files,
        &vec![true, false, true],
        &vec!["base".to_string()],
        THEME_BG,
        &options(1, 1),
        &flag,
    )
    .unwrap();
    assert_eq!(r.num_ignored, 1);
    assert_eq!(r.longest_line_chars, 1);
    // Four lines, one pixel each: a 2 x 2 canvas holding only the kept files.
    assert_eq!((r.canvas.width, r.canvas.height), (2, 2));
    assert_eq!(pixels(&r.canvas), vec![FG, FG, FG, FG]);
}

#[test]
fn render_pads_the_last_column() {
    let flag = AtomicBool::new(false);
    let files = vec![file(&["a", "a", "a"])];
    let r = render(&files, &vec![true], &vec!["base".to_string()], THEME_BG, &options(1, 1), &flag).unwrap();
    // Three lines: two columns of two lines, the last slot padded.
    assert_eq!((r.canvas.width, r.canvas.height), (2, 2));
    assert_eq!(pixels(&r.canvas), vec![FG, FG, FG, THEME_BG]);
}

#[test]
fn columns_in_any_order_match_sequential_render() {
    let files = vec![file(&["ab", "c"]), file(&[" d"]), file(&["efg", "h", "i"])];
    let kept: Vec<usize> = vec![0, 1, 2];
    let offsets = [0u32, 2, 3];
    let mut c = ctx(3, 2, 3, 0);
    c.color_modulation = 200;
    let flag = AtomicBool::new(false);

    let mut sequential = Canvas::new(9, 6, BLACK);
    let totals = render_files(&files, &kept, &mut sequential, &c, &flag).unwrap();
    assert_eq!(totals.line_num, 6);
    assert_eq!(totals.longest_line_chars, 3);

    let mut parallel = Canvas::new(9, 6, BLACK);
    let mut acc = Totals { line_num: 0, longest_line_chars: 0, background: None };
    for k in [2usize, 0, 1] {
        let file_c = ChunkContext { file_index: k, ..c };
        let (column, out) = render_column(&files[kept[k]], &file_c);
        absorb(&mut acc, &mut parallel, &column, &out, offsets[k], &c, &flag).unwrap();
    }
    assert_eq!(acc.line_num, 6);
    assert_eq!(acc.longest_line_chars, 3);
    assert_eq!(pixels(&parallel), pixels(&sequential));
}

#[test]
fn skipped_file_renders_like_an_absent_one() {
    let flag = AtomicBool::new(false);
    let names = vec!["base".to_string()];
    let with = vec![file(&["a", "bb"]), file(&["zz", "zz", "zz"]), file(&["c d"])];
    let without = vec![file(&["a", "bb"]), file(&["c d"])];
    let mut o = options(3, 2);
    o.color_modulation = 90;
    let a = render(&with, &vec![true, false, true], &names, THEME_BG, &o, &flag).unwrap();
    let b = render(&without, &vec![true, true], &names, THEME_BG, &o, &flag).unwrap();
    assert_eq!(a.num_ignored, 1);
    assert_eq!(b.num_ignored, 0);
    assert_eq!((a.canvas.width, a.canvas.height), (b.canvas.width, b.canvas.height));
    assert_eq!(pixels(&a.canvas), pixels(&b.canvas));
}

#[test]
fn three_files_render_to_one_column() {
    let flag = AtomicBool::new(false);
    let lines = |n: usize| -> Vec<Vec<Span>> { (0..n).map(|_| line("x")).collect() };
    let files = vec![lines(10), lines(5), lines(20)];
    let r = render(&files, &vec![true; 3], &vec!["base".to_string()], THEME_BG, &options(80, 2), &flag).unwrap();
    assert_eq!((r.canvas.width, r.canvas.height), (80, 70));
}
