use ansi_grid::grid::Cell;
use ansi_grid::grid::Grid;
use ansi_grid::render::render_str;
use ansi_grid::render::Region;
use ansi_grid::style::Color;
use ansi_grid::style::RenderError;
use ansi_grid::style::Style;

fn region(top: usize, left: usize, width: usize, height: usize) -> Region {
    Region { top, left, width, height }
}

fn default_style() -> Style {
    Style { foreground: None, background: None, bold: false }
}

fn row_string(g: &Grid, y: usize) -> String {
    g.row_chars(y).into_iter().collect()
}

#[test]
fn plain_text_lands_at_cumulative_columns() {
    let mut g = Grid::new(10, 2);
    let r = render_str(&mut g, "abc", &region(0, 0, 10, 2));
    assert!(r.is_ok());
    assert_eq!(g.get(0, 0), Cell { ch: 'a', style: default_style() });
    assert_eq!(g.get(0, 1), Cell { ch: 'b', style: default_style() });
    assert_eq!(g.get(0, 2), Cell { ch: 'c', style: default_style() });
    assert_eq!(g.get(0, 3).ch, ' ');
}

#[test]
fn wide_character_advances_two_columns() {
    let mut g = Grid::new(10, 1);
    let r = render_str(&mut g, "\u{4e16}x", &region(0, 0, 10, 1));
    assert!(r.is_ok());
    assert_eq!(g.get(0, 0).ch, '\u{4e16}');
    // The cell hidden under the wide character is blanked, and the
    // next character starts two columns over.
    assert_eq!(g.get(0, 1).ch, ' ');
    assert_eq!(g.get(0, 2).ch, 'x');
}

#[test]
fn zero_width_character_is_skipped() {
    let mut g = Grid::new(5, 1);
    let r = render_str(&mut g, "a\u{200b}b", &region(0, 0, 5, 1));
    assert!(r.is_ok());
    assert_eq!(g.get(0, 0).ch, 'a');
    assert_eq!(g.get(0, 1).ch, 'b');
}

#[test]
fn three_column_character_blanks_hidden_cells() {
    // The Khmer sign Beyyal is the one character unicode_width gives
    // three columns.
    let mut g = Grid::new(6, 1);
    let r = render_str(&mut g, "x\u{17d8}y", &region(0, 0, 6, 1));
    assert!(r.is_ok());
    assert_eq!(g.get(0, 0).ch, 'x');
    assert_eq!(g.get(0, 1).ch, '\u{17d8}');
    assert_eq!(g.get(0, 2).ch, ' ');
    assert_eq!(g.get(0, 3).ch, ' ');
    assert_eq!(g.get(0, 4).ch, 'y');
}

#[test]
fn true_color_run_then_reset() {
    let mut g = Grid::new(10, 1);
    let r = render_str(&mut g, "\x1b[38;2;1;205;254mBULL\x1b[0mok", &region(0, 0, 10, 1));
    assert!(r.is_ok());
    let styled = Style { foreground: Some(Color::Rgb(1, 205, 254)), background: None, bold: false };
    assert_eq!(g.get(0, 0), Cell { ch: 'B', style: styled });
    assert_eq!(g.get(0, 1), Cell { ch: 'U', style: styled });
    assert_eq!(g.get(0, 2), Cell { ch: 'L', style: styled });
    assert_eq!(g.get(0, 3), Cell { ch: 'L', style: styled });
    // After the reset, subsequent text is written in the default style.
    assert_eq!(g.get(0, 4), Cell { ch: 'o', style: default_style() });
    assert_eq!(g.get(0, 5), Cell { ch: 'k', style: default_style() });
}

#[test]
fn indexed_color_run() {
    let mut g = Grid::new(5, 1);
    let r = render_str(&mut g, "\x1b[38;5;196mX", &region(0, 0, 5, 1));
    assert!(r.is_ok());
    let styled = Style { foreground: Some(Color::Indexed(196)), background: None, bold: false };
    assert_eq!(g.get(0, 0), Cell { ch: 'X', style: styled });
}

#[test]
fn background_and_bold_codes() {
    let mut g = Grid::new(8, 1);
    let r = render_str(&mut g, "\x1b[48;5;17m\x1b[1ma\x1b[2mb", &region(0, 0, 8, 1));
    assert!(r.is_ok());
    let bg = Some(Color::Indexed(17));
    assert_eq!(g.get(0, 0), Cell { ch: 'a', style: Style { foreground: None, background: bg, bold: true } });
    assert_eq!(g.get(0, 1), Cell { ch: 'b', style: Style { foreground: None, background: bg, bold: false } });
}

#[test]
fn run_starting_past_right_edge_is_dropped_whole() {
    let mut g = Grid::new(4, 1);
    // "abcd" fills the row exactly; the next run would start at
    // column 4, at the edge, and is dropped whole, not truncated.
    let r = render_str(&mut g, "abcd\x1b[1mEF", &region(0, 0, 4, 1));
    assert!(r.is_ok());
    assert_eq!(row_string(&g, 0), "abcd");
}

#[test]
fn run_reaching_past_right_edge_is_clipped() {
    let mut g = Grid::new(3, 1);
    let r = render_str(&mut g, "abcd", &region(0, 0, 3, 1));
    assert!(r.is_ok());
    assert_eq!(row_string(&g, 0), "abc");
}

#[test]
fn style_persists_across_lines() {
    let mut g = Grid::new(5, 2);
    let r = render_str(&mut g, "\x1b[38;5;9ma\nb", &region(0, 0, 5, 2));
    assert!(r.is_ok());
    let styled = Style { foreground: Some(Color::Indexed(9)), background: None, bold: false };
    assert_eq!(g.get(0, 0), Cell { ch: 'a', style: styled });
    // No reset or new graphics code between the lines: line two keeps
    // the style set on line one.
    assert_eq!(g.get(1, 0), Cell { ch: 'b', style: styled });
}

#[test]
fn excess_lines_are_silently_skipped() {
    let mut g = Grid::new(3, 2);
    let r = render_str(&mut g, "a\nb\nc\nd", &region(0, 0, 3, 2));
    assert!(r.is_ok());
    assert_eq!(row_string(&g, 0), "a  ");
    assert_eq!(row_string(&g, 1), "b  ");
}

#[test]
fn lines_below_the_region_are_skipped_but_rows_above_kept() {
    let mut g = Grid::new(3, 3);
    let first = render_str(&mut g, "zzz", &region(2, 0, 3, 1));
    assert!(first.is_ok());
    let second = render_str(&mut g, "a\nb", &region(0, 0, 3, 1));
    assert!(second.is_ok());
    assert_eq!(row_string(&g, 0), "a  ");
    assert_eq!(row_string(&g, 1), "   ");
    // The row outside the second render's region keeps its content.
    assert_eq!(row_string(&g, 2), "zzz");
}

#[test]
fn round_trip_strips_escapes_and_keeps_line_breaks() {
    let mut g = Grid::new(6, 2);
    let r = render_str(&mut g, "a\x1b[38;5;2mbc\n\x1b[0mde", &region(0, 0, 6, 2));
    assert!(r.is_ok());
    assert_eq!(row_string(&g, 0), "abc   ");
    assert_eq!(row_string(&g, 1), "de    ");
}

#[test]
fn carriage_return_before_line_feed_is_dropped() {
    let mut g = Grid::new(4, 2);
    let r = render_str(&mut g, "ab\r\ncd", &region(0, 0, 4, 2));
    assert!(r.is_ok());
    assert_eq!(row_string(&g, 0), "ab  ");
    assert_eq!(row_string(&g, 1), "cd  ");
}

#[test]
fn unsupported_attribute_reports_error_and_leaves_grid_untouched() {
    let mut g = Grid::new(4, 1);
    let ok = render_str(&mut g, "ab", &region(0, 0, 4, 1));
    assert!(ok.is_ok());
    let r = render_str(&mut g, "x\x1b[99my", &region(0, 0, 4, 1));
    assert_eq!(r, Err(RenderError::UnsupportedAttribute));
    // The failed render wrote nothing: the previous frame stands.
    assert_eq!(row_string(&g, 0), "ab  ");
}

#[test]
fn unsupported_color_mode_reports_error() {
    let mut g = Grid::new(4, 1);
    let r = render_str(&mut g, "\x1b[38;9;1mx", &region(0, 0, 4, 1));
    assert_eq!(r, Err(RenderError::UnsupportedColorMode));
}

#[test]
fn unsupported_escape_family_reports_error() {
    let mut g = Grid::new(4, 1);
    let r = render_str(&mut g, "\x1b[2Jx", &region(0, 0, 4, 1));
    assert_eq!(r, Err(RenderError::UnsupportedEscapeSequence));
    let r2 = render_str(&mut g, "\x1b(Bx", &region(0, 0, 4, 1));
    assert_eq!(r2, Err(RenderError::UnsupportedEscapeSequence));
}

#[test]
fn malformed_input_reports_error() {
    let mut g = Grid::new(4, 1);
    assert_eq!(render_str(&mut g, "a\x1b[", &region(0, 0, 4, 1)), Err(RenderError::MalformedInput));
    assert_eq!(render_str(&mut g, "a\x1b", &region(0, 0, 4, 1)), Err(RenderError::MalformedInput));
    assert_eq!(
        render_str(&mut g, "\x1b[300mx", &region(0, 0, 4, 1)),
        Err(RenderError::MalformedInput)
    );
    assert_eq!(
        render_str(&mut g, "\x1b[;1mx", &region(0, 0, 4, 1)),
        Err(RenderError::MalformedInput)
    );
    assert_eq!(
        render_str(&mut g, "\x1b[38mx", &region(0, 0, 4, 1)),
        Err(RenderError::MalformedInput)
    );
}

#[test]
fn reset_mode_escape_restores_default_style() {
    let mut g = Grid::new(6, 1);
    let r = render_str(&mut g, "\x1b[38;5;4ma\x1b[=7lb", &region(0, 0, 6, 1));
    assert!(r.is_ok());
    let styled = Style { foreground: Some(Color::Indexed(4)), background: None, bold: false };
    assert_eq!(g.get(0, 0), Cell { ch: 'a', style: styled });
    assert_eq!(g.get(0, 1), Cell { ch: 'b', style: default_style() });
}

#[test]
fn region_offset_places_text_at_top_left_of_region() {
    let mut g = Grid::new(6, 3);
    let r = render_str(&mut g, "ab", &region(1, 2, 4, 2));
    assert!(r.is_ok());
    assert_eq!(row_string(&g, 0), "      ");
    assert_eq!(row_string(&g, 1), "  ab  ");
    assert_eq!(row_string(&g, 2), "      ");
}

#[test]
fn fresh_grid_is_blank() {
    let g = Grid::new(3, 2);
    assert_eq!(g.width(), 3);
    assert_eq!(g.height(), 2);
    for y in 0..2 {
        for x in 0..3 {
            assert_eq!(g.get(y, x), Cell { ch: ' ', style: default_style() });
        }
    }
}
