use vstd::prelude::*;
use vstd::string::StringSliceAdditionalSpecFns;

use crate::canvas::Rgb;
use crate::chunk::{cells, min, Span};
use crate::error::RenderError;
use syntect::easy::HighlightLines;
use syntect::highlighting::Theme;
use syntect::parsing::SyntaxSet;

verus! {

#[verifier::external_type_specification]
#[verifier::external_body]
pub struct ExSyntaxSet(syntect::parsing::SyntaxSet);

#[verifier::external_type_specification]
#[verifier::external_body]
pub struct ExTheme(syntect::highlighting::Theme);

#[verifier::external_type_specification]
#[verifier::external_body]
pub struct ExHighlightLines<'a>(syntect::easy::HighlightLines<'a>);

#[verifier::external_type_specification]
#[verifier::external_body]
pub struct ExSyntectError(syntect::Error);

/// Highlighting state for one syntax, bound to the syntax set that syntax
/// came from: the two can only be built together.
pub struct Highlighter<'a> {
    lines: HighlightLines<'a>,
    syntax_set: &'a SyntaxSet,
}

/// Relies on `SyntaxSet::find_syntax_by_name` and `HighlightLines::new`:
/// `None` when `syntax_set` has no syntax called `syntax_name`.
#[verifier::external_body]
pub fn new_highlighter<'a>(syntax_set: &'a SyntaxSet, syntax_name: &str, theme: &'a Theme) -> (r: Option<Highlighter<'a>>) {
    syntax_set.find_syntax_by_name(syntax_name).map(|syntax| Highlighter {
        lines: HighlightLines::new(syntax, theme),
        syntax_set,
    })
}

/// The lines of `text` as `str::lines` gives them.
pub uninterp spec fn lines_of(text: Seq<char>) -> Seq<Seq<char>>;

/// Number of lines of `text` as `str::lines` counts them: every `\n` ends a
/// line, and a last line without one counts too.
pub open spec fn line_count(text: Seq<u8>) -> int {
    newline_count(text) + if text.len() > 0 && text.last() != 10u8 { 1int } else { 0int }
}

pub open spec fn newline_count(text: Seq<u8>) -> int
    decreases text.len(),
{
    if text.len() == 0 {
        0
    } else {
        newline_count(text.drop_last()) + if text.last() == 10u8 { 1int } else { 0int }
    }
}

/// The characters of a highlighted line, without their styles.
pub open spec fn span_text(spans: Seq<Span>) -> Seq<char> {
    cells(spans).map_values(|c: (char, Rgb, Rgb)| c.0)
}

/// Relies on `str::lines`: one piece per line, split after each `\n`; a
/// final line ending adds no empty line. The pieces are `lines_of(text)`.
#[verifier::external_body]
fn split_lines(text: &str) -> (r: Vec<&str>)
    ensures
        r@.len() == line_count(text.spec_bytes()),
        lines_of(text@).len() == r@.len(),
        forall|i: int| 0 <= i < r@.len() ==> r@[i]@ == lines_of(text@)[i],
{
    text.lines().collect()
}

/// Relies on `str::char_indices`: the first `n` characters of `line`, or all of them.
#[verifier::external_body]
fn char_prefix(line: &str, n: usize) -> (r: &str)
    ensures
        r@ == line@.take(min(n as int, line@.len() as int)),
{
    match line.char_indices().nth(n) {
        Some((i, _)) => &line[..i],
        None => line,
    }
}

/// Whether `a` is a prefix of `b`.
pub open spec fn is_prefix(a: Seq<char>, b: Seq<char>) -> bool {
    a.len() <= b.len() && a == b.take(a.len() as int)
}

/// Relies on `HighlightLines::highlight_line`, run with the syntax set the
/// state was built from: its styled pieces are consecutive slices of the
/// line from its start (the iterator may stop before the end). Colors keep
/// their red, green and blue channels.
#[verifier::external_body]
fn highlight_line(highlighter: &mut Highlighter<'_>, line: &str) -> (r: Result<Vec<Span>, syntect::Error>)
    ensures
        r is Ok ==> is_prefix(span_text(r->Ok_0@), line@),
{
    let syntax_set = highlighter.syntax_set;
    highlighter.lines.highlight_line(line, syntax_set).map(|pieces| {
        pieces.into_iter().map(|(style, text)| Span {
            fg: Rgb { r: style.foreground.r, g: style.foreground.g, b: style.foreground.b },
            bg: Rgb { r: style.background.r, g: style.background.g, b: style.background.b },
            text: text.chars().collect(),
        }).collect()
    })
}

/// Relies on syntect's `Display` for its errors, for the message.
#[verifier::external_body]
fn error_message(e: &syntect::Error) -> (r: String) {
    e.to_string()
}

/// The text handed to the highlighter for line `line`: all of it, or its
/// first `column_width` characters.
pub open spec fn handed(line: Seq<char>, column_width: u32, highlight_truncated_lines: bool) -> Seq<char> {
    if highlight_truncated_lines {
        line
    } else {
        line.take(min(column_width as int, line.len() as int))
    }
}

/// Highlights every line of `text` in turn with `highlighter`. Unless
/// `highlight_truncated_lines` is set, only the first `column_width`
/// characters of each line are handed to the highlighter, as no more are drawn.
pub fn highlight_file(
    highlighter: &mut Highlighter<'_>,
    text: &str,
    column_width: u32,
    highlight_truncated_lines: bool,
) -> (r: Result<Vec<Vec<Span>>, RenderError>)
    ensures
        line_count(text.spec_bytes()) == 0 ==> r is Ok,
        r is Ok ==> r->Ok_0@.len() == line_count(text.spec_bytes()),
        r is Ok ==> forall|i: int| 0 <= i < r->Ok_0@.len() ==> is_prefix(
            span_text(#[trigger] r->Ok_0@[i]@),
            handed(lines_of(text@)[i], column_width, highlight_truncated_lines),
        ),
        r is Err ==> r->Err_0 is Highlight,
{
    let lines = split_lines(text);
    let mut out: Vec<Vec<Span>> = Vec::new();
    let mut i: usize = 0;
    while i < lines.len()
        invariant
            0 <= i <= lines@.len(),
            out@.len() == i,
            lines@.len() == line_count(text.spec_bytes()),
            lines_of(text@).len() == lines@.len(),
            forall|k: int| 0 <= k < lines@.len() ==> lines@[k]@ == lines_of(text@)[k],
            forall|k: int| 0 <= k < i ==> is_prefix(
                span_text(#[trigger] out@[k]@),
                handed(lines_of(text@)[k], column_width, highlight_truncated_lines),
            ),
        decreases lines@.len() - i,
    {
        let line = if highlight_truncated_lines {
            lines[i]
        } else {
            char_prefix(lines[i], column_width as usize)
        };
        match highlight_line(highlighter, line) {
            Ok(spans) => out.push(spans),
            Err(e) => {
                return Err(RenderError::Highlight { message: error_message(&e) });
            },
        }
        i = i + 1;
    }
    Ok(out)
}

} // verus!
