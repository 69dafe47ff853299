use codevis::{calc_offsets, compute, AspectRatio, Dimension, RenderError};

fn ratio(width: u32, height: u32) -> AspectRatio {
    AspectRatio { width, height }
}

#[test]
fn three_files_square_target_picks_one_column() {
    // Files of 10, 5 and 20 lines: 35 lines in all.
    let total = 10 + 5 + 20;
    let d = compute(ratio(1, 1), 80, total, 2, false).unwrap();
    // One column is 80 x 70 (ratio 8/7); two are 160 x 36 (ratio 40/9), further off.
    assert_eq!(
        d,
        Dimension { imgx: 80, imgy: 70, lines_per_column: 35, required_columns: 1 }
    );
}

#[test]
fn square_target_with_square_pixels() {
    let d = compute(ratio(1, 1), 1, 100, 1, false).unwrap();
    assert_eq!(d, Dimension { imgx: 10, imgy: 10, lines_per_column: 10, required_columns: 10 });
}

#[test]
fn tie_prefers_fewer_columns() {
    // Two columns give 2 x 4 (1/2), three give 3 x 2 (3/2): both 1/2 away from 1.
    let d = compute(ratio(1, 1), 1, 3, 2, false).unwrap();
    assert_eq!(d.required_columns, 2);
    assert_eq!(d.lines_per_column, 2);
    assert_eq!((d.imgx, d.imgy), (2, 4));
}

#[test]
fn force_full_columns_only_uses_divisors() {
    // 7 lines: only 1 or 7 columns fill every column.
    let free = compute(ratio(1, 1), 1, 7, 1, false).unwrap();
    assert_eq!(free.required_columns, 3);
    let full = compute(ratio(1, 1), 1, 7, 1, true).unwrap();
    assert_eq!(full.required_columns * full.lines_per_column, 7);
    assert_eq!(full.required_columns, 1);
}

#[test]
fn layout_always_holds_every_line() {
    for total in 1..60u32 {
        for (w, h) in [(1u32, 1u32), (16, 9), (1, 4), (5, 1)] {
            for cw in [1u32, 3, 80] {
                let d = compute(ratio(w, h), cw, total, 2, false).unwrap();
                assert!(d.required_columns >= 1);
                assert!(d.lines_per_column * d.required_columns >= total);
                assert_eq!(d.imgx, d.required_columns * cw);
                assert_eq!(d.imgy, d.lines_per_column * 2);
            }
        }
    }
}

#[test]
fn zero_ratio_is_rejected() {
    assert_eq!(compute(ratio(0, 1), 80, 10, 2, false), Err(RenderError::InvalidAspectRatio));
    assert_eq!(compute(ratio(1, 0), 80, 10, 2, false), Err(RenderError::InvalidAspectRatio));
}

#[test]
fn zero_lines_is_empty_input() {
    assert_eq!(compute(ratio(1, 1), 80, 0, 2, false), Err(RenderError::EmptyInput));
}

#[test]
fn zero_sized_column_is_rejected() {
    assert_eq!(compute(ratio(1, 1), 0, 10, 2, false), Err(RenderError::ZeroSizedColumn));
    assert_eq!(compute(ratio(1, 1), 80, 10, 0, false), Err(RenderError::ZeroSizedColumn));
}

#[test]
fn oversized_image_is_rejected() {
    assert_eq!(
        compute(ratio(1, 1), 10_000_000, 1_000_000, 10_000_000, false),
        Err(RenderError::DimensionsTooLarge)
    );
}

#[test]
fn offsets_of_a_line() {
    // Line 7 with 3 lines per column: column 2, row 1.
    assert_eq!(calc_offsets(7, 3, 10, 2), (20, 2));
    assert_eq!(calc_offsets(0, 3, 10, 2), (0, 0));
}

#[test]
fn offsets_are_distinct_and_inside() {
    let (lpc, cols, cw, lh) = (4u32, 3u32, 5u32, 2u32);
    let mut seen = Vec::new();
    for i in 0..lpc * cols {
        let (x, y) = calc_offsets(i, lpc, cw, lh);
        assert!(x + cw <= cols * cw);
        assert!(y + lh <= lpc * lh);
        assert!(!seen.contains(&(x, y)));
        seen.push((x, y));
    }
}
