use syntect::highlighting::ThemeSet;
use syntect::parsing::SyntaxSet;
use codevis::{effective_threads, find_theme, plan_files, worker_threads, RenderError};

#[test]
fn counts_lines_like_str_lines() {
    assert_eq!(codevis::count_lines(""), 0);
    assert_eq!(codevis::count_lines("a"), 1);
    assert_eq!(codevis::count_lines("a\nb"), 2);
    assert_eq!(codevis::count_lines("a\nb\n"), 2);
    assert_eq!(codevis::count_lines("\n\n"), 2);
    assert_eq!(codevis::count_lines("a\r\nb\r\n"), 2);
}

#[test]
fn unknown_syntax_name_gives_no_highlighter() {
    let ss = SyntaxSet::load_defaults_nonewlines();
    let ts = ThemeSet::load_defaults();
    let theme = ts.themes.values().next().unwrap();
    assert!(codevis::new_highlighter(&ss, "No Such Syntax", theme).is_none());
    assert!(codevis::new_highlighter(&ss, "Rust", theme).is_some());
}

#[test]
fn skipped_files_are_counted_and_left_out() {
    let plan = plan_files(&vec![10, 4, 5], &vec![true, false, true], true).unwrap();
    assert_eq!(plan.kept, vec![0, 2]);
    assert_eq!(plan.offsets, vec![0, 10]);
    assert_eq!(plan.total_line_count, 15);
    assert_eq!(plan.num_ignored, 1);
}

#[test]
fn without_skipping_every_file_is_kept() {
    let plan = plan_files(&vec![10, 4, 5], &vec![true, false, true], false).unwrap();
    assert_eq!(plan.kept, vec![0, 1, 2]);
    assert_eq!(plan.offsets, vec![0, 10, 14]);
    assert_eq!(plan.total_line_count, 19);
    assert_eq!(plan.num_ignored, 0);
}

#[test]
fn no_lines_is_no_renderable_lines() {
    assert_eq!(
        plan_files(&vec![0, 0], &vec![true, true], false).unwrap_err(),
        RenderError::NoRenderableLines { num_files: 2 }
    );
    assert_eq!(
        plan_files(&vec![3], &vec![false], true).unwrap_err(),
        RenderError::NoRenderableLines { num_files: 0 }
    );
    assert_eq!(
        plan_files(&vec![], &vec![], false).unwrap_err(),
        RenderError::NoRenderableLines { num_files: 0 }
    );
}

#[test]
fn too_many_lines_is_too_large() {
    let big = u32::MAX as usize;
    assert_eq!(
        plan_files(&vec![big, 1], &vec![true, true], false).unwrap_err(),
        RenderError::DimensionsTooLarge
    );
}

#[test]
fn thread_count_is_clamped() {
    assert_eq!(effective_threads(0, 8), 8);
    assert_eq!(effective_threads(3, 8), 3);
    assert_eq!(effective_threads(16, 8), 8);
    assert_eq!(effective_threads(1, 1), 1);
    assert_eq!(worker_threads(1), 1);
    assert!(worker_threads(0) >= 1);
}

#[test]
fn theme_is_found_by_name() {
    let names = vec!["InspiredGitHub".to_string(), "Solarized (dark)".to_string()];
    assert_eq!(find_theme(&names, &"Solarized (dark)".to_string()), Ok(1));
}

#[test]
fn missing_theme_lists_the_loaded_ones() {
    let names = vec!["InspiredGitHub".to_string(), "Solarized (dark)".to_string()];
    match find_theme(&names, &"nope".to_string()) {
        Err(RenderError::ThemeNotFound { requested, available }) => {
            assert_eq!(requested, "nope");
            assert_eq!(available, names);
            assert!(!available.is_empty());
        }
        other => panic!("unexpected {:?}", other),
    }
}

#[test]
fn highlighting_keeps_every_character() {
    let ss = SyntaxSet::load_defaults_nonewlines();
    let ts = ThemeSet::load_defaults();
    let theme = ts.themes.values().next().unwrap();
    let text_of = |line: &Vec<codevis::Span>| -> String {
        line.iter().flat_map(|s| s.text.iter()).collect()
    };
    let mut h = codevis::new_highlighter(&ss, "Plain Text", theme).unwrap();
    let lines = codevis::highlight_file(&mut h, "ab\ncd e\n", 80, true).unwrap();
    assert_eq!(lines.len(), 2);
    assert_eq!(text_of(&lines[0]), "ab");
    assert_eq!(text_of(&lines[1]), "cd e");
    let mut h = codevis::new_highlighter(&ss, "Plain Text", theme).unwrap();
    let cut = codevis::highlight_file(&mut h, "ab\ncd e", 2, false).unwrap();
    assert_eq!(cut.len(), 2);
    assert_eq!(text_of(&cut[1]), "cd");
    for (text, n) in [("", 0), ("a", 1), ("a\nb\n", 2), ("\n\n", 2), ("a\r\nb", 2)] {
        let mut h = codevis::new_highlighter(&ss, "Plain Text", theme).unwrap();
        assert_eq!(codevis::highlight_file(&mut h, text, 80, true).unwrap().len(), n);
    }
}
