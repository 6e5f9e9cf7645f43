//! General properties of the renderer, stated and proved over the
//! rendering model that the executable functions are verified against.

use vstd::prelude::*;
use crate::grid::Cell;
use crate::grid::put_cell;
use crate::grid::write_text_spec;
use crate::render::Region;
use crate::render::SpecRun;
use crate::render::apply_runs_spec;
use crate::render::lemma_line_runs_row_any;
use crate::render::line_runs;
use crate::render::plan_from;
use crate::render::render_spec;
use crate::scan::SpecToken;
use crate::scan::esc_char;
use crate::scan::lemma_scan_text_bounds;
use crate::scan::scan_text;
use crate::scan::split_lines_spec;
use crate::scan::split_rec;
use crate::scan::strip_cr;
use crate::scan::tokenize_from;
use crate::style::RenderError;
use crate::style::Style;
use crate::style::apply_graphics_spec;
use crate::width::char_width_of;
use crate::width::text_width_of;

verus! {

/// A text run met at a column at or past the grid's right edge is
/// dropped whole: the scan goes on exactly as if the run were not
/// there, with the column unmoved.
pub proof fn lemma_text_run_dropped_whole(
    toks: Seq<SpecToken>,
    t: Seq<char>,
    style: Style,
    col: int,
    row: int,
    gw: int,
    emit: bool,
)
    requires
        col >= gw,
        toks.len() > 0,
        toks[0] == SpecToken::Text(t),
    ensures
        line_runs(toks, style, col, row, gw, emit) == line_runs(
            toks.skip(1),
            style,
            col,
            row,
            gw,
            emit,
        ),
{
}

/// Every run a line emits starts at or right of the starting column
/// and strictly left of the grid's right edge, on the line's own row,
/// and the column never moves left.
pub proof fn lemma_line_runs_within(
    toks: Seq<SpecToken>,
    style: Style,
    col: int,
    row: int,
    gw: int,
    emit: bool,
)
    ensures
        match line_runs(toks, style, col, row, gw, emit) {
            Ok((rs, _st, c)) => col <= c && forall|j: int|
                0 <= j < rs.len() ==> col <= (#[trigger] rs[j]).x && rs[j].x < gw && rs[j].y
                    == row,
            Err(_) => true,
        },
    decreases toks.len(),
{
    if toks.len() > 0 {
        match toks[0] {
            SpecToken::Text(t) => {
                if col < gw {
                    lemma_line_runs_within(toks.skip(1), style, col + text_width_of(t), row, gw, emit);
                    match line_runs(toks.skip(1), style, col + text_width_of(t), row, gw, emit) {
                        Ok((rs, _st, _c)) => {
                            if emit {
                                let run = SpecRun { y: row, x: col, text: t, style };
                                assert forall|j: int|
                                    0 <= j < (seq![run] + rs).len() implies col <= (
                                #[trigger] (seq![run] + rs)[j]).x && (seq![run] + rs)[j].x < gw
                                    && (seq![run] + rs)[j].y == row by {
                                    if j > 0 {
                                        assert((seq![run] + rs)[j] == rs[j - 1]);
                                    }
                                }
                            }
                        },
                        Err(_) => {},
                    }
                } else {
                    lemma_line_runs_within(toks.skip(1), style, col, row, gw, emit);
                }
            },
            SpecToken::SetGraphics(ps) => {
                match apply_graphics_spec(style, ps) {
                    Ok(st) => lemma_line_runs_within(toks.skip(1), st, col, row, gw, emit),
                    Err(_) => {},
                }
            },
            SpecToken::Reset(_) => {
                lemma_line_runs_within(toks.skip(1), Style::default_spec(), col, row, gw, emit);
            },
        }
    }
}

/// Every planned run lies inside the destination region's rows, above
/// the grid's bottom edge, and left of the grid's right edge.
pub proof fn lemma_plan_rows_within(
    lines: Seq<Seq<char>>,
    i: int,
    style: Style,
    top: int,
    left: int,
    height: int,
    gw: int,
    gh: int,
)
    requires
        0 <= i,
    ensures
        match plan_from(lines, i, style, top, left, height, gw, gh) {
            Ok((rs, _st)) => forall|j: int|
                0 <= j < rs.len() ==> top <= (#[trigger] rs[j]).y < top + height && rs[j].y < gh
                    && left <= rs[j].x < gw,
            Err(_) => true,
        },
    decreases lines.len() - i,
{
    if 0 <= i < lines.len() {
        match crate::scan::tokenize_from(lines[i], 0) {
            Ok(toks) => {
                let emit = i < height && top + i < gh;
                lemma_line_runs_within(toks, style, left, top + i, gw, emit);
                if !emit {
                    lemma_line_runs_row_any(toks, style, left, top + i, top + i, gw);
                }
                match line_runs(toks, style, left, top + i, gw, emit) {
                    Ok((rs0, st, _c)) => {
                        lemma_plan_rows_within(lines, i + 1, st, top, left, height, gw, gh);
                        match plan_from(lines, i + 1, st, top, left, height, gw, gh) {
                            Ok((rest, _fin)) => {
                                assert forall|j: int|
                                    0 <= j < (rs0 + rest).len() implies top <= (
                                #[trigger] (rs0 + rest)[j]).y < top + height && (rs0 + rest)[j].y
                                    < gh && left <= (rs0 + rest)[j].x < gw by {
                                    if j < rs0.len() {
                                        assert((rs0 + rest)[j] == rs0[j]);
                                    } else {
                                        assert((rs0 + rest)[j] == rest[j - rs0.len()]);
                                    }
                                }
                            },
                            Err(_) => {},
                        }
                    },
                    Err(_) => {},
                }
            },
            Err(_) => {},
        }
    }
}

/// Replacing one cell changes that cell and nothing else.
pub proof fn lemma_put_cell_frame(g: Seq<Seq<Cell>>, y: int, x: int, c: Cell)
    requires
        0 <= y < g.len(),
        0 <= x < g[y].len(),
    ensures
        ({
            let g2 = put_cell(g, y, x, c);
            &&& g2.len() == g.len()
            &&& g2[y].len() == g[y].len()
            &&& forall|r: int| 0 <= r < g.len() && r != y ==> g2[r] == g[r]
            &&& forall|cc: int| 0 <= cc < g[y].len() && cc != x ==> g2[y][cc] == g[y][cc]
            &&& g2[y][x] == c
        }),
{
}

/// Writing a run touches only its own row, and in it only the columns
/// at or right of the starting column.
pub proof fn lemma_write_text_cols_ge(
    g: Seq<Seq<Cell>>,
    y: int,
    x: int,
    t: Seq<char>,
    style: Style,
    gw: int,
)
    requires
        0 <= y < g.len(),
        0 <= x,
        g[y].len() == gw,
    ensures
        ({
            let g2 = write_text_spec(g, y, x, t, style, gw);
            &&& g2.len() == g.len()
            &&& forall|r: int| 0 <= r < g.len() && r != y ==> g2[r] == g[r]
            &&& g2[y].len() == g[y].len()
            &&& forall|cc: int| 0 <= cc < g[y].len() && cc < x ==> g2[y][cc] == g[y][cc]
        }),
    decreases t.len(),
{
    if t.len() > 0 {
        let w = char_width_of(t[0]) as int;
        if w == 0 {
            lemma_write_text_cols_ge(g, y, x, t.skip(1), style, gw);
        } else if x + w > gw {
        } else {
            lemma_put_cell_frame(g, y, x, Cell { ch: t[0], style });
            let g1 = put_cell(g, y, x, Cell { ch: t[0], style });
            if w >= 2 {
                lemma_put_cell_frame(g1, y, x + 1, crate::grid::blank_cell());
            }
            let g2 = if w >= 2 {
                put_cell(g1, y, x + 1, crate::grid::blank_cell())
            } else {
                g1
            };
            if w >= 3 {
                lemma_put_cell_frame(g2, y, x + 2, crate::grid::blank_cell());
            }
            let g3 = if w >= 3 {
                put_cell(g2, y, x + 2, crate::grid::blank_cell())
            } else {
                g2
            };
            assert(g1.len() == g.len() && g1[y].len() == g[y].len());
            assert(g2.len() == g.len() && g2[y].len() == g[y].len());
            assert(g3.len() == g.len() && g3[y].len() == g[y].len());
            lemma_write_text_cols_ge(g3, y, x + w, t.skip(1), style, gw);
            assert forall|cc: int| 0 <= cc < g[y].len() && cc < x implies write_text_spec(
                g,
                y,
                x,
                t,
                style,
                gw,
            )[y][cc] == g[y][cc] by {
                assert(g3[y][cc] == g[y][cc]);
            }
        }
    }
}

/// Applying runs leaves every row that no run lands on untouched.
pub proof fn lemma_apply_runs_frame(g: Seq<Seq<Cell>>, rs: Seq<SpecRun>, gw: int)
    requires
        forall|j: int| 0 <= j < rs.len() ==> 0 <= (#[trigger] rs[j]).y < g.len() && 0 <= rs[j].x,
        forall|r: int| 0 <= r < g.len() ==> (#[trigger] g[r]).len() == gw,
    ensures
        ({
            let g2 = apply_runs_spec(g, rs, gw);
            &&& g2.len() == g.len()
            &&& forall|r: int|
                0 <= r < g.len() && (forall|j: int| 0 <= j < rs.len() ==> (#[trigger] rs[j]).y != r)
                    ==> g2[r] == g[r]
        }),
    decreases rs.len(),
{
    if rs.len() > 0 {
        lemma_write_text_cols_ge(g, rs[0].y, rs[0].x, rs[0].text, rs[0].style, gw);
        let g1 = write_text_spec(g, rs[0].y, rs[0].x, rs[0].text, rs[0].style, gw);
        assert forall|j: int| 0 <= j < rs.skip(1).len() implies 0 <= (#[trigger] rs.skip(1)[j]).y
            < g1.len() && 0 <= rs.skip(1)[j].x by {
            assert(rs.skip(1)[j] == rs[j + 1]);
        }
        assert forall|r: int| 0 <= r < g1.len() implies (#[trigger] g1[r]).len() == gw by {
            if r != rs[0].y {
                assert(g1[r] == g[r]);
            }
        }
        lemma_apply_runs_frame(g1, rs.skip(1), gw);
        let g2 = apply_runs_spec(g1, rs.skip(1), gw);
        assert forall|r: int|
            0 <= r < g.len() && (forall|j: int| 0 <= j < rs.len() ==> (#[trigger] rs[j]).y != r)
            implies apply_runs_spec(g, rs, gw)[r] == g[r] by {
            assert(rs[0].y != r);
            assert(g1[r] == g[r]);
            assert forall|j: int| 0 <= j < rs.skip(1).len() implies (#[trigger] rs.skip(1)[j]).y
                != r by {
                assert(rs.skip(1)[j] == rs[j + 1]);
            }
            assert(g2[r] == g1[r]);
        }
    }
}

/// A line count exceeding the destination region's height (or the
/// grid's) only skips the excess lines: every grid row outside the
/// region's row range is exactly what it was before the render.
pub proof fn lemma_rows_outside_region_unchanged(
    g: Seq<Seq<Cell>>,
    src: Seq<char>,
    region: Region,
    gw: int,
    gh: int,
)
    requires
        g.len() == gh,
        forall|r: int| 0 <= r < g.len() ==> (#[trigger] g[r]).len() == gw,
    ensures
        match render_spec(g, src, region, gw, gh) {
            Ok(g2) => g2.len() == g.len() && forall|r: int|
                0 <= r < g.len() && !(region.top <= r < region.top + region.height) ==> g2[r]
                    == g[r],
            Err(_) => true,
        },
{
    lemma_plan_rows_within(
        split_lines_spec(src),
        0,
        Style::default_spec(),
        region.top as int,
        region.left as int,
        region.height as int,
        gw,
        gh,
    );
    match plan_from(
        split_lines_spec(src),
        0,
        Style::default_spec(),
        region.top as int,
        region.left as int,
        region.height as int,
        gw,
        gh,
    ) {
        Ok((rs, _st)) => {
            lemma_apply_runs_frame(g, rs, gw);
        },
        Err(_) => {},
    }
}

/// Style set on one line persists into the following lines: a line
/// whose tokens are all literal text neither fails nor changes the
/// running style, and every run it emits carries the style it was
/// entered with.
pub proof fn lemma_text_only_line_keeps_style(
    toks: Seq<SpecToken>,
    style: Style,
    col: int,
    row: int,
    gw: int,
    emit: bool,
)
    requires
        forall|j: int| 0 <= j < toks.len() ==> (#[trigger] toks[j]) matches SpecToken::Text(_),
    ensures
        match line_runs(toks, style, col, row, gw, emit) {
            Ok((rs, st, _c)) => st == style && forall|j: int|
                0 <= j < rs.len() ==> (#[trigger] rs[j]).style == style,
            Err(_) => false,
        },
    decreases toks.len(),
{
    if toks.len() > 0 {
        assert(toks[0] matches SpecToken::Text(_));
        match toks[0] {
            SpecToken::Text(t) => {
                assert forall|j: int| 0 <= j < toks.skip(1).len() implies (#[trigger] toks.skip(
                    1,
                )[j]) matches SpecToken::Text(_) by {
                    assert(toks.skip(1)[j] == toks[j + 1]);
                }
                if col < gw {
                    lemma_text_only_line_keeps_style(
                        toks.skip(1),
                        style,
                        col + text_width_of(t),
                        row,
                        gw,
                        emit,
                    );
                    match line_runs(toks.skip(1), style, col + text_width_of(t), row, gw, emit) {
                        Ok((rs, _st, _c)) => {
                            if emit {
                                let run = SpecRun { y: row, x: col, text: t, style };
                                assert forall|j: int|
                                    0 <= j < (seq![run] + rs).len() implies (
                                #[trigger] (seq![run] + rs)[j]).style == style by {
                                    if j > 0 {
                                        assert((seq![run] + rs)[j] == rs[j - 1]);
                                    }
                                }
                            }
                        },
                        Err(_) => {},
                    }
                } else {
                    lemma_text_only_line_keeps_style(toks.skip(1), style, col, row, gw, emit);
                }
            },
            SpecToken::SetGraphics(_) => {},
            SpecToken::Reset(_) => {},
        }
    }
}

/// Appending one character adds its width.
pub proof fn lemma_text_width_push(s: Seq<char>, c: char)
    ensures
        text_width_of(s.push(c)) == text_width_of(s) + char_width_of(c),
    decreases s.len(),
{
    if s.len() == 0 {
        assert(s.push(c)[0] == c);
        assert(s.push(c).skip(1) =~= Seq::<char>::empty());
        assert(text_width_of(Seq::<char>::empty()) == 0);
        assert(s =~= Seq::<char>::empty());
    } else {
        assert(s.push(c)[0] == s[0]);
        assert(s.push(c).skip(1) =~= s.skip(1).push(c));
        lemma_text_width_push(s.skip(1), c);
    }
}

/// The width of the first `k + 1` characters is the width of the
/// first `k` plus the width of the `k`-th.
pub proof fn lemma_text_width_take_succ(t: Seq<char>, k: int)
    requires
        0 <= k < t.len(),
    ensures
        text_width_of(t.take(k + 1)) == text_width_of(t.take(k)) + char_width_of(t[k]),
{
    assert(t.take(k + 1) =~= t.take(k).push(t[k]));
    lemma_text_width_push(t.take(k), t[k]);
}

/// Prefix widths only grow.
pub proof fn lemma_text_width_take_mono(t: Seq<char>, a: int, b: int)
    requires
        0 <= a <= b <= t.len(),
    ensures
        text_width_of(t.take(a)) <= text_width_of(t.take(b)),
    decreases b - a,
{
    if a < b {
        lemma_text_width_take_succ(t, b - 1);
        lemma_text_width_take_mono(t, a, b - 1);
    }
}

/// Splitting off the first character of a prefix.
pub proof fn lemma_text_width_take_step(t: Seq<char>, j: int)
    requires
        1 <= j <= t.len(),
    ensures
        text_width_of(t.take(j)) == char_width_of(t[0]) + text_width_of(t.skip(1).take(j - 1)),
{
    assert(t.take(j)[0] == t[0]);
    assert(t.take(j).skip(1) =~= t.skip(1).take(j - 1));
}

/// Where each character of a written run lands: a character of
/// positive width whose cells fit before the right edge is found, in
/// the run's style, at the column that the widths of the characters
/// before it add up to.
pub proof fn lemma_write_text_places(
    g: Seq<Seq<Cell>>,
    y: int,
    x: int,
    t: Seq<char>,
    style: Style,
    gw: int,
    j: int,
)
    requires
        0 <= y < g.len(),
        0 <= x,
        g[y].len() == gw,
        0 <= j < t.len(),
    ensures
        char_width_of(t[j]) >= 1 && x + text_width_of(t.take(j + 1)) <= gw ==> write_text_spec(
            g,
            y,
            x,
            t,
            style,
            gw,
        )[y][x + text_width_of(t.take(j))] == (Cell { ch: t[j], style }),
    decreases j,
{
    if char_width_of(t[j]) >= 1 && x + text_width_of(t.take(j + 1)) <= gw {
        let w = char_width_of(t[0]) as int;
        if w == 0 {
            lemma_text_width_take_step(t, j + 1);
            lemma_write_text_places(g, y, x, t.skip(1), style, gw, j - 1);
            if j >= 1 {
                lemma_text_width_take_step(t, j);
            }
        } else {
            lemma_text_width_take_mono(t, 1, j + 1);
            lemma_text_width_take_succ(t, 0);
            assert(t.take(0) =~= Seq::<char>::empty());
            assert(x + w <= gw);
            lemma_put_cell_frame(g, y, x, Cell { ch: t[0], style });
            let g1 = put_cell(g, y, x, Cell { ch: t[0], style });
            if w >= 2 {
                lemma_put_cell_frame(g1, y, x + 1, crate::grid::blank_cell());
            }
            let g2 = if w >= 2 {
                put_cell(g1, y, x + 1, crate::grid::blank_cell())
            } else {
                g1
            };
            if w >= 3 {
                lemma_put_cell_frame(g2, y, x + 2, crate::grid::blank_cell());
            }
            let g3 = if w >= 3 {
                put_cell(g2, y, x + 2, crate::grid::blank_cell())
            } else {
                g2
            };
            assert(g3.len() == g.len() && g3[y].len() == gw);
            if j == 0 {
                assert(g3[y][x] == (Cell { ch: t[0], style }));
                lemma_write_text_cols_ge(g3, y, x + w, t.skip(1), style, gw);
                assert(write_text_spec(g3, y, x + w, t.skip(1), style, gw)[y][x] == g3[y][x]);
            } else {
                lemma_text_width_take_step(t, j + 1);
                lemma_text_width_take_step(t, j);
                lemma_write_text_places(g3, y, x + w, t.skip(1), style, gw, j - 1);
            }
        }
    }
}

/// The concatenated text of a run sequence.
pub open spec fn runs_text(rs: Seq<SpecRun>) -> Seq<char>
    decreases rs.len(),
{
    if rs.len() == 0 {
        Seq::empty()
    } else {
        rs[0].text + runs_text(rs.skip(1))
    }
}

/// The concatenated literal text of a token sequence: the line with
/// its escape sequences stripped.
pub open spec fn toks_text(ts: Seq<SpecToken>) -> Seq<char>
    decreases ts.len(),
{
    if ts.len() == 0 {
        Seq::empty()
    } else {
        (match ts[0] {
            SpecToken::Text(t) => t,
            _ => Seq::empty(),
        }) + toks_text(ts.skip(1))
    }
}

/// The total display width of a token sequence's literal text.
pub open spec fn toks_width(ts: Seq<SpecToken>) -> nat
    decreases ts.len(),
{
    if ts.len() == 0 {
        0
    } else {
        (match ts[0] {
            SpecToken::Text(t) => text_width_of(t),
            _ => 0,
        }) + toks_width(ts.skip(1))
    }
}

/// The runs stand shoulder to shoulder: the first at `col`, each next
/// one at the previous one's column plus its text's display width.
pub open spec fn runs_consecutive(rs: Seq<SpecRun>, col: int) -> bool
    decreases rs.len(),
{
    if rs.len() == 0 {
        true
    } else {
        rs[0].x == col && runs_consecutive(rs.skip(1), col + text_width_of(rs[0].text))
    }
}

/// Rendering preserves the text, escapes stripped: when a line's
/// literal text fits strictly left of the grid's right edge, the
/// emitted runs carry exactly that text, in order and shoulder to
/// shoulder, and the column ends up advanced by exactly its display
/// width.
pub proof fn lemma_line_text_preserved(
    toks: Seq<SpecToken>,
    style: Style,
    col: int,
    row: int,
    gw: int,
)
    ensures
        match line_runs(toks, style, col, row, gw, true) {
            Ok((rs, _st, c)) => 0 <= col && col + toks_width(toks) < gw ==> runs_text(rs)
                == toks_text(toks) && c == col + toks_width(toks) && runs_consecutive(rs, col),
            Err(_) => true,
        },
    decreases toks.len(),
{
    if toks.len() > 0 && 0 <= col && col + toks_width(toks) < gw {
        match toks[0] {
            SpecToken::Text(t) => {
                lemma_line_text_preserved(toks.skip(1), style, col + text_width_of(t), row, gw);
                match line_runs(toks.skip(1), style, col + text_width_of(t), row, gw, true) {
                    Ok((rs, _st, _c)) => {
                        let run = SpecRun { y: row, x: col, text: t, style };
                        assert((seq![run] + rs)[0] == run);
                        assert((seq![run] + rs).skip(1) =~= rs);
                    },
                    Err(_) => {},
                }
            },
            SpecToken::SetGraphics(ps) => {
                match apply_graphics_spec(style, ps) {
                    Ok(st) => lemma_line_text_preserved(toks.skip(1), st, col, row, gw),
                    Err(_) => {},
                }
            },
            SpecToken::Reset(_) => {
                lemma_line_text_preserved(toks.skip(1), Style::default_spec(), col, row, gw);
            },
        }
    }
}

/// Shoulder-to-shoulder runs never start left of the first one.
pub proof fn lemma_runs_x_lower(rs: Seq<SpecRun>, col: int)
    requires
        runs_consecutive(rs, col),
    ensures
        forall|i: int| 0 <= i < rs.len() ==> (#[trigger] rs[i]).x >= col,
    decreases rs.len(),
{
    if rs.len() > 0 {
        lemma_runs_x_lower(rs.skip(1), col + text_width_of(rs[0].text));
        assert forall|i: int| 0 <= i < rs.len() implies (#[trigger] rs[i]).x >= col by {
            if i > 0 {
                assert(rs[i] == rs.skip(1)[i - 1]);
            }
        }
    }
}

/// Applying runs that each land on another row or start at or right
/// of a column leaves the cells of that row left of the column
/// untouched, and every row keeps its length.
pub proof fn lemma_apply_cols_lt_untouched(
    g: Seq<Seq<Cell>>,
    rs: Seq<SpecRun>,
    gw: int,
    y: int,
    bound: int,
)
    requires
        0 <= y < g.len(),
        0 <= bound,
        forall|r: int| 0 <= r < g.len() ==> (#[trigger] g[r]).len() == gw,
        forall|i: int|
            0 <= i < rs.len() ==> 0 <= (#[trigger] rs[i]).y < g.len() && 0 <= rs[i].x && (rs[i].y
                != y || rs[i].x >= bound),
    ensures
        ({
            let g2 = apply_runs_spec(g, rs, gw);
            &&& g2.len() == g.len()
            &&& forall|r: int| 0 <= r < g2.len() ==> (#[trigger] g2[r]).len() == gw
            &&& forall|cc: int| 0 <= cc < gw && cc < bound ==> g2[y][cc] == g[y][cc]
        }),
    decreases rs.len(),
{
    if rs.len() > 0 {
        lemma_write_text_cols_ge(g, rs[0].y, rs[0].x, rs[0].text, rs[0].style, gw);
        let g1 = write_text_spec(g, rs[0].y, rs[0].x, rs[0].text, rs[0].style, gw);
        assert forall|r: int| 0 <= r < g1.len() implies (#[trigger] g1[r]).len() == gw by {
            if r != rs[0].y {
                assert(g1[r] == g[r]);
            }
        }
        assert forall|i: int|
            0 <= i < rs.skip(1).len() implies 0 <= (#[trigger] rs.skip(1)[i]).y < g1.len() && 0
            <= rs.skip(1)[i].x && (rs.skip(1)[i].y != y || rs.skip(1)[i].x >= bound) by {
            assert(rs.skip(1)[i] == rs[i + 1]);
        }
        lemma_apply_cols_lt_untouched(g1, rs.skip(1), gw, y, bound);
    }
}

/// Placement within a whole plan: a run that no later run overlaps
/// (every later run lands on another row or starts at or past the
/// run's end) has each of its characters of positive width, whose
/// cells fit before the right edge, standing at its cumulative-width
/// column in the run's style once all runs are applied.
pub proof fn lemma_apply_places(
    g: Seq<Seq<Cell>>,
    rs: Seq<SpecRun>,
    gw: int,
    i: int,
    j: int,
)
    requires
        forall|r: int| 0 <= r < g.len() ==> (#[trigger] g[r]).len() == gw,
        forall|k: int| 0 <= k < rs.len() ==> 0 <= (#[trigger] rs[k]).y < g.len() && 0 <= rs[k].x,
        forall|k: int|
            i < k < rs.len() ==> ((#[trigger] rs[k]).y != rs[i].y || rs[k].x >= rs[i].x
                + text_width_of(rs[i].text)),
        0 <= i < rs.len(),
        0 <= j < rs[i].text.len(),
    ensures
        char_width_of(rs[i].text[j]) >= 1 && rs[i].x + text_width_of(rs[i].text.take(j + 1)) <= gw
            ==> apply_runs_spec(g, rs, gw)[rs[i].y][rs[i].x + text_width_of(rs[i].text.take(j))]
            == (Cell { ch: rs[i].text[j], style: rs[i].style }),
    decreases i,
{
    if char_width_of(rs[i].text[j]) >= 1 && rs[i].x + text_width_of(rs[i].text.take(j + 1))
        <= gw {
        lemma_write_text_cols_ge(g, rs[0].y, rs[0].x, rs[0].text, rs[0].style, gw);
        let g1 = write_text_spec(g, rs[0].y, rs[0].x, rs[0].text, rs[0].style, gw);
        assert forall|r: int| 0 <= r < g1.len() implies (#[trigger] g1[r]).len() == gw by {
            if r != rs[0].y {
                assert(g1[r] == g[r]);
            }
        }
        assert forall|k: int| 0 <= k < rs.skip(1).len() implies 0 <= (#[trigger] rs.skip(1)[k]).y
            < g1.len() && 0 <= rs.skip(1)[k].x by {
            assert(rs.skip(1)[k] == rs[k + 1]);
        }
        if i == 0 {
            lemma_write_text_places(g, rs[0].y, rs[0].x, rs[0].text, rs[0].style, gw, j);
            let pos = rs[0].x + text_width_of(rs[0].text.take(j));
            assert(rs[0].text.take(rs[0].text.len() as int) =~= rs[0].text);
            lemma_text_width_take_mono(rs[0].text, j + 1, rs[0].text.len() as int);
            lemma_text_width_take_succ(rs[0].text, j);
            let bound = rs[0].x + text_width_of(rs[0].text);
            assert(pos + char_width_of(rs[0].text[j]) <= bound);
            assert forall|k: int|
                0 <= k < rs.skip(1).len() implies ((#[trigger] rs.skip(1)[k]).y != rs[0].y
                || rs.skip(1)[k].x >= bound) by {
                assert(rs.skip(1)[k] == rs[k + 1]);
            }
            lemma_apply_cols_lt_untouched(g1, rs.skip(1), gw, rs[0].y, bound);
            assert(apply_runs_spec(g1, rs.skip(1), gw)[rs[0].y][pos] == g1[rs[0].y][pos]);
        } else {
            assert forall|k: int|
                i - 1 < k < rs.skip(1).len() implies ((#[trigger] rs.skip(1)[k]).y != rs.skip(
                1,
            )[i - 1].y || rs.skip(1)[k].x >= rs.skip(1)[i - 1].x + text_width_of(
                rs.skip(1)[i - 1].text,
            )) by {
                assert(rs.skip(1)[k] == rs[k + 1]);
                assert(rs.skip(1)[i - 1] == rs[i]);
            }
            lemma_apply_places(g1, rs.skip(1), gw, i - 1, j);
            assert(rs.skip(1)[i - 1] == rs[i]);
        }
    }
}

/// Round trip: applying shoulder-to-shoulder runs of one row puts
/// every character where its run and its cumulative display width
/// say, so reading the row back (style ignored) recovers each run's
/// text at those columns.  A character of positive width is found,
/// in its run's style, as long as its cells fit before the right
/// edge.
pub proof fn lemma_round_trip_runs(
    g: Seq<Seq<Cell>>,
    rs: Seq<SpecRun>,
    gw: int,
    y: int,
    col: int,
    i: int,
    j: int,
)
    requires
        0 <= y < g.len(),
        0 <= col,
        forall|r: int| 0 <= r < g.len() ==> (#[trigger] g[r]).len() == gw,
        forall|k: int| 0 <= k < rs.len() ==> (#[trigger] rs[k]).y == y,
        runs_consecutive(rs, col),
        0 <= i < rs.len(),
        0 <= j < rs[i].text.len(),
    ensures
        char_width_of(rs[i].text[j]) >= 1 && rs[i].x + text_width_of(rs[i].text.take(j + 1)) <= gw
            ==> apply_runs_spec(g, rs, gw)[y][rs[i].x + text_width_of(rs[i].text.take(j))]
            == (Cell { ch: rs[i].text[j], style: rs[i].style }),
    decreases i,
{
    if char_width_of(rs[i].text[j]) >= 1 && rs[i].x + text_width_of(rs[i].text.take(j + 1))
        <= gw {
        lemma_write_text_cols_ge(g, rs[0].y, rs[0].x, rs[0].text, rs[0].style, gw);
        let g1 = write_text_spec(g, rs[0].y, rs[0].x, rs[0].text, rs[0].style, gw);
        assert forall|r: int| 0 <= r < g1.len() implies (#[trigger] g1[r]).len() == gw by {
            if r != y {
                assert(g1[r] == g[r]);
            }
        }
        assert forall|k: int| 0 <= k < rs.skip(1).len() implies (#[trigger] rs.skip(1)[k]).y
            == y by {
            assert(rs.skip(1)[k] == rs[k + 1]);
        }
        if i == 0 {
            lemma_write_text_places(g, y, rs[0].x, rs[0].text, rs[0].style, gw, j);
            let pos = rs[0].x + text_width_of(rs[0].text.take(j));
            assert(rs[0].text.take(rs[0].text.len() as int) =~= rs[0].text);
            lemma_text_width_take_mono(rs[0].text, j + 1, rs[0].text.len() as int);
            let nxt = col + text_width_of(rs[0].text);
            lemma_runs_x_lower(rs.skip(1), nxt);
            assert forall|k: int| 0 <= k < rs.skip(1).len() implies (#[trigger] rs.skip(1)[k]).x
                >= nxt by {
            }
            lemma_text_width_take_succ(rs[0].text, j);
            assert(pos + char_width_of(rs[0].text[j]) <= nxt);
            assert(0 <= nxt);
            lemma_apply_cols_lt_untouched(g1, rs.skip(1), gw, y, nxt);
            assert(apply_runs_spec(g1, rs.skip(1), gw)[y][pos] == g1[y][pos]);
        } else {
            lemma_text_width_take_mono(rs[0].text, 0, rs[0].text.len() as int);
            assert(rs[0].text.take(0) =~= Seq::<char>::empty());
            assert(text_width_of(Seq::<char>::empty()) == 0);
            lemma_round_trip_runs(
                g1,
                rs.skip(1),
                gw,
                y,
                col + text_width_of(rs[0].text),
                i - 1,
                j,
            );
            assert(rs.skip(1)[i - 1] == rs[i]);
        }
    }
}

/// Applying concatenated runs is applying the first part, then the
/// second.
pub proof fn lemma_apply_append(g: Seq<Seq<Cell>>, a: Seq<SpecRun>, b: Seq<SpecRun>, gw: int)
    ensures
        apply_runs_spec(g, a + b, gw) == apply_runs_spec(apply_runs_spec(g, a, gw), b, gw),
    decreases a.len(),
{
    if a.len() == 0 {
        assert(a + b =~= b);
    } else {
        assert((a + b)[0] == a[0]);
        assert((a + b).skip(1) =~= a.skip(1) + b);
        let g1 = write_text_spec(g, a[0].y, a[0].x, a[0].text, a[0].style, gw);
        lemma_apply_append(g1, a.skip(1), b, gw);
    }
}

/// Planned runs only land on rows at or below the row of the line the
/// plan starts with.
pub proof fn lemma_plan_rows_lower(
    lines: Seq<Seq<char>>,
    i: int,
    style: Style,
    top: int,
    left: int,
    height: int,
    gw: int,
    gh: int,
)
    requires
        0 <= i,
    ensures
        match plan_from(lines, i, style, top, left, height, gw, gh) {
            Ok((rs, _st)) => forall|k: int| 0 <= k < rs.len() ==> (#[trigger] rs[k]).y >= top + i,
            Err(_) => true,
        },
    decreases lines.len() - i,
{
    if 0 <= i < lines.len() {
        match crate::scan::tokenize_from(lines[i], 0) {
            Ok(toks) => {
                let emit = i < height && top + i < gh;
                lemma_line_runs_within(toks, style, left, top + i, gw, emit);
                if !emit {
                    lemma_line_runs_row_any(toks, style, left, top + i, top + i, gw);
                }
                match line_runs(toks, style, left, top + i, gw, emit) {
                    Ok((rs0, st, _c)) => {
                        lemma_plan_rows_lower(lines, i + 1, st, top, left, height, gw, gh);
                        match plan_from(lines, i + 1, st, top, left, height, gw, gh) {
                            Ok((rest, _fin)) => {
                                assert forall|k: int|
                                    0 <= k < (rs0 + rest).len() implies (#[trigger] (rs0
                                    + rest)[k]).y >= top + i by {
                                    if k < rs0.len() {
                                        assert((rs0 + rest)[k] == rs0[k]);
                                    } else {
                                        assert((rs0 + rest)[k] == rest[k - rs0.len()]);
                                    }
                                }
                            },
                            Err(_) => {},
                        }
                    },
                    Err(_) => {},
                }
            },
            Err(_) => {},
        }
    }
}

/// Splitting an input with no escape character yields only lines with
/// no escape character.
pub proof fn lemma_split_plain(s: Seq<char>, i: int, cur: Seq<char>)
    requires
        0 <= i <= s.len(),
        forall|k: int| i <= k < s.len() ==> s[k] != esc_char(),
        forall|k: int| 0 <= k < cur.len() ==> cur[k] != esc_char(),
    ensures
        forall|a: int, b: int|
            0 <= a < split_rec(s, i, cur).len() && 0 <= b < split_rec(s, i, cur)[a].len() ==> (
            #[trigger] split_rec(s, i, cur)[a][b]) != esc_char(),
    decreases s.len() - i,
{
    if i >= s.len() {
        assert forall|a: int, b: int|
            0 <= a < split_rec(s, i, cur).len() && 0 <= b < split_rec(s, i, cur)[a].len() implies (
        #[trigger] split_rec(s, i, cur)[a][b]) != esc_char() by {
            assert(split_rec(s, i, cur)[a] == cur);
        }
    } else if s[i] == '\n' {
        lemma_split_plain(s, i + 1, Seq::empty());
        assert forall|a: int, b: int|
            0 <= a < split_rec(s, i, cur).len() && 0 <= b < split_rec(s, i, cur)[a].len() implies (
        #[trigger] split_rec(s, i, cur)[a][b]) != esc_char() by {
            if a == 0 {
                assert(split_rec(s, i, cur)[0] == strip_cr(cur));
                if cur.len() > 0 && cur[cur.len() - 1] == '\r' {
                    assert(strip_cr(cur)[b] == cur[b]);
                }
            } else {
                assert(split_rec(s, i, cur)[a] == split_rec(s, i + 1, Seq::<char>::empty())[a - 1]);
                assert(split_rec(s, i + 1, Seq::<char>::empty())[a - 1][b] != esc_char());
            }
        }
    } else {
        assert forall|k: int| 0 <= k < cur.push(s[i]).len() implies cur.push(s[i])[k]
            != esc_char() by {
            if k < cur.len() {
                assert(cur.push(s[i])[k] == cur[k]);
            }
        }
        lemma_split_plain(s, i + 1, cur.push(s[i]));
        assert forall|a: int, b: int|
            0 <= a < split_rec(s, i, cur).len() && 0 <= b < split_rec(s, i, cur)[a].len() implies (
        #[trigger] split_rec(s, i, cur)[a][b]) != esc_char() by {
            assert(split_rec(s, i, cur)[a][b] == split_rec(s, i + 1, cur.push(s[i]))[a][b]);
            assert(split_rec(s, i + 1, cur.push(s[i]))[a][b] != esc_char());
        }
    }
}

/// Planning lines with no escape character never fails and keeps the
/// default style.
pub proof fn lemma_plain_plan_ok(
    lines: Seq<Seq<char>>,
    idx: int,
    top: int,
    left: int,
    height: int,
    gw: int,
    gh: int,
)
    requires
        forall|a: int, b: int|
            0 <= a < lines.len() && 0 <= b < lines[a].len() ==> (#[trigger] lines[a][b])
                != esc_char(),
        0 <= idx,
    ensures
        match plan_from(lines, idx, Style::default_spec(), top, left, height, gw, gh) {
            Ok((_rs, st)) => st == Style::default_spec(),
            Err(_) => false,
        },
    decreases lines.len() - idx,
{
    if idx < lines.len() {
        let line = lines[idx];
        lemma_plain_line_single_token(line);
        let emit = idx < height && top + idx < gh;
        let toks: Seq<SpecToken> = if line.len() == 0 {
            Seq::empty()
        } else {
            seq![SpecToken::Text(line)]
        };
        assert(crate::scan::tokenize_from(line, 0) == Ok::<Seq<SpecToken>, RenderError>(toks));
        assert forall|k: int| 0 <= k < toks.len() implies (#[trigger] toks[k])
            matches SpecToken::Text(_) by {}
        lemma_text_only_line_keeps_style(toks, Style::default_spec(), left, top + idx, gw, emit);
        lemma_plain_plan_ok(lines, idx + 1, top, left, height, gw, gh);
    }
}

/// Plain text goes to cumulative-width columns in the default style,
/// over any number of lines: for input lines with no escape
/// character, planning from any line on succeeds keeping the default
/// style, and after the plan is applied, each character of positive
/// width of each line inside the region (and the grid), whose cells
/// fit before the right edge, stands on the line's row at the column
/// given by the widths of the characters before it, in the default
/// style.
pub proof fn lemma_plain_plan_places(
    g: Seq<Seq<Cell>>,
    lines: Seq<Seq<char>>,
    idx: int,
    top: int,
    left: int,
    height: int,
    gw: int,
    gh: int,
    i: int,
    j: int,
)
    requires
        g.len() == gh,
        forall|r: int| 0 <= r < g.len() ==> (#[trigger] g[r]).len() == gw,
        forall|a: int, b: int|
            0 <= a < lines.len() && 0 <= b < lines[a].len() ==> (#[trigger] lines[a][b])
                != esc_char(),
        0 <= top,
        0 <= left < gw,
        0 <= idx <= i < lines.len(),
        i < height,
        top + i < gh,
        0 <= j < lines[i].len(),
    ensures
        match plan_from(lines, idx, Style::default_spec(), top, left, height, gw, gh) {
            Ok((rs, st)) => st == Style::default_spec() && (char_width_of(lines[i][j]) >= 1 && left
                + text_width_of(lines[i].take(j + 1)) <= gw ==> apply_runs_spec(g, rs, gw)[top + i][left
                + text_width_of(lines[i].take(j))] == (Cell {
                ch: lines[i][j],
                style: Style::default_spec(),
            })),
            Err(_) => false,
        },
    decreases i - idx,
{
    let line = lines[idx];
    lemma_plain_line_single_token(line);
    let emit = idx < height && top + idx < gh;
    let toks: Seq<SpecToken> = if line.len() == 0 {
        Seq::empty()
    } else {
        seq![SpecToken::Text(line)]
    };
    assert(crate::scan::tokenize_from(line, 0) == Ok::<Seq<SpecToken>, RenderError>(toks));
    assert forall|k: int| 0 <= k < toks.len() implies (#[trigger] toks[k])
        matches SpecToken::Text(_) by {}
    lemma_text_only_line_keeps_style(toks, Style::default_spec(), left, top + idx, gw, emit);
    let lr = line_runs(toks, Style::default_spec(), left, top + idx, gw, emit);
    let rs0: Seq<SpecRun> = if line.len() == 0 || !emit {
        Seq::empty()
    } else {
        seq![SpecRun { y: top + idx, x: left, text: line, style: Style::default_spec() }]
    };
    if line.len() > 0 && emit {
        assert(toks[0] == SpecToken::Text(line));
        assert(toks.skip(1) =~= Seq::<SpecToken>::empty());
        assert(line_runs(
            Seq::<SpecToken>::empty(),
            Style::default_spec(),
            left + text_width_of(line),
            top + idx,
            gw,
            emit,
        ) == Ok::<(Seq<SpecRun>, Style, int), RenderError>(
            (Seq::<SpecRun>::empty(), Style::default_spec(), left + text_width_of(line)),
        ));
        assert(seq![SpecRun { y: top + idx, x: left, text: line, style: Style::default_spec() }]
            + Seq::<SpecRun>::empty() =~= rs0);
        assert(lr == Ok::<(Seq<SpecRun>, Style, int), RenderError>(
            (rs0, Style::default_spec(), left + text_width_of(line)),
        ));
    } else if !emit {
        lemma_line_runs_row_any(toks, Style::default_spec(), left, top + idx, top + idx, gw);
        match lr {
            Ok((rsx, _st, _c)) => {
                assert(rsx =~= rs0);
            },
            Err(_) => {
                assert(false);
            },
        }
    } else {
        assert(toks =~= Seq::<SpecToken>::empty());
        assert(lr == Ok::<(Seq<SpecRun>, Style, int), RenderError>(
            (Seq::empty(), Style::default_spec(), left),
        ));
    }
    let rest = plan_from(lines, idx + 1, Style::default_spec(), top, left, height, gw, gh);
    lemma_plain_plan_ok(lines, idx + 1, top, left, height, gw, gh);
    lemma_plan_rows_within(lines, idx + 1, Style::default_spec(), top, left, height, gw, gh);
    lemma_plan_rows_lower(lines, idx + 1, Style::default_spec(), top, left, height, gw, gh);
    if idx == i {
        // This line's own run carries character `j`; the lines below
        // land on rows strictly under this one and leave it alone.
        match rest {
            Ok((rb, _stb)) => {
                if char_width_of(line[j]) >= 1 && left + text_width_of(line.take(j + 1)) <= gw {
                    lemma_apply_append(g, rs0, rb, gw);
                    lemma_write_text_places(g, top + idx, left, line, Style::default_spec(), gw, j);
                    lemma_write_text_cols_ge(g, top + idx, left, line, Style::default_spec(), gw);
                    let g1 = write_text_spec(g, top + idx, left, line, Style::default_spec(), gw);
                    assert forall|r: int| 0 <= r < g1.len() implies (#[trigger] g1[r]).len()
                        == gw by {
                        if r != top + idx {
                            assert(g1[r] == g[r]);
                        }
                    }
                    assert(rs0.skip(1) =~= Seq::<SpecRun>::empty());
                    assert(rs0[0] == SpecRun {
                        y: top + idx,
                        x: left,
                        text: line,
                        style: Style::default_spec(),
                    });
                    assert(apply_runs_spec(g1, Seq::<SpecRun>::empty(), gw) == g1);
                    assert(apply_runs_spec(g, rs0, gw) == g1);
                    assert forall|k: int| 0 <= k < rb.len() implies 0 <= (#[trigger] rb[k]).y
                        < g1.len() && 0 <= rb[k].x && rb[k].y != top + idx by {}
                    lemma_apply_runs_frame(g1, rb, gw);
                    assert(apply_runs_spec(g1, rb, gw)[top + idx] == g1[top + idx]);
                }
            },
            Err(_) => {
                assert(false);
            },
        }
    } else {
        // Lines above line `i` are applied first; whatever they wrote,
        // the rows below are rendered on top of that grid.
        let g1 = apply_runs_spec(g, rs0, gw);
        if line.len() > 0 && emit {
            lemma_write_text_cols_ge(g, top + idx, left, line, Style::default_spec(), gw);
            assert(rs0.skip(1) =~= Seq::<SpecRun>::empty());
            assert(rs0[0] == SpecRun {
                y: top + idx,
                x: left,
                text: line,
                style: Style::default_spec(),
            });
            assert(apply_runs_spec(
                write_text_spec(g, top + idx, left, line, Style::default_spec(), gw),
                Seq::<SpecRun>::empty(),
                gw,
            ) == write_text_spec(g, top + idx, left, line, Style::default_spec(), gw));
            assert(g1 == write_text_spec(g, top + idx, left, line, Style::default_spec(), gw));
            assert forall|r: int| 0 <= r < g1.len() implies (#[trigger] g1[r]).len() == gw by {
                if r != top + idx {
                    assert(g1[r] == g[r]);
                }
            }
        } else {
            assert(g1 == g);
        }
        lemma_plain_plan_places(g1, lines, idx + 1, top, left, height, gw, gh, i, j);
        match rest {
            Ok((rb, _stb)) => {
                lemma_apply_append(g, rs0, rb, gw);
            },
            Err(_) => {},
        }
    }
}

/// Plain text at the top level: rendering an input with no escape
/// character succeeds, and on every line inside the region and the
/// grid, each character of positive width whose cells fit before the
/// right edge is found at the column given by the widths of the
/// characters before it, in the default style.
pub proof fn lemma_plain_text_render_lines(
    g: Seq<Seq<Cell>>,
    s: Seq<char>,
    region: Region,
    gw: int,
    gh: int,
    i: int,
    j: int,
)
    requires
        g.len() == gh,
        forall|r: int| 0 <= r < g.len() ==> (#[trigger] g[r]).len() == gw,
        forall|k: int| 0 <= k < s.len() ==> s[k] != esc_char(),
        (region.left as int) < gw,
        0 <= i < split_lines_spec(s).len(),
        i < region.height,
        region.top + i < gh,
        0 <= j < split_lines_spec(s)[i].len(),
    ensures
        match render_spec(g, s, region, gw, gh) {
            Ok(g2) => char_width_of(split_lines_spec(s)[i][j]) >= 1 && region.left + text_width_of(
                split_lines_spec(s)[i].take(j + 1),
            ) <= gw ==> g2[region.top + i][region.left + text_width_of(
                split_lines_spec(s)[i].take(j),
            )] == (Cell { ch: split_lines_spec(s)[i][j], style: Style::default_spec() }),
            Err(_) => false,
        },
{
    lemma_split_plain(s, 0, Seq::empty());
    lemma_plain_plan_places(
        g,
        split_lines_spec(s),
        0,
        region.top as int,
        region.left as int,
        region.height as int,
        gw,
        gh,
        i,
        j,
    );
}

/// An input with no line feed is one single line.
pub proof fn lemma_split_no_newline(s: Seq<char>, i: int, cur: Seq<char>)
    requires
        0 <= i <= s.len(),
        forall|k: int| i <= k < s.len() ==> s[k] != '\n',
        cur.len() + s.len() - i > 0,
    ensures
        split_rec(s, i, cur) == seq![cur + s.subrange(i, s.len() as int)],
    decreases s.len() - i,
{
    if i >= s.len() {
        assert(cur + s.subrange(i, s.len() as int) =~= cur);
        assert(split_rec(s, i, cur) =~= seq![cur + s.subrange(i, s.len() as int)]);
    } else {
        lemma_split_no_newline(s, i + 1, cur.push(s[i]));
        assert(cur.push(s[i]) + s.subrange(i + 1, s.len() as int) =~= cur + s.subrange(
            i,
            s.len() as int,
        ));
    }
}

/// Round trip at the top: rendering a one-line input whose literal
/// text fits left of the grid's right edge succeeds whenever its
/// escapes do, the runs written carry exactly the input with the
/// escape sequences stripped, and each written character of positive
/// width stands at the column its run and the widths of the
/// characters before it prescribe, so reading the grid's text back
/// recovers the stripped input.
pub proof fn lemma_round_trip_render(
    g: Seq<Seq<Cell>>,
    s: Seq<char>,
    region: Region,
    gw: int,
    gh: int,
    i: int,
    j: int,
)
    requires
        g.len() == gh,
        forall|r: int| 0 <= r < g.len() ==> (#[trigger] g[r]).len() == gw,
        forall|k: int| 0 <= k < s.len() ==> s[k] != '\n',
        s.len() > 0,
        region.height > 0,
        (region.top as int) < gh,
    ensures
        match (render_spec(g, s, region, gw, gh), tokenize_from(s, 0)) {
            (Ok(g2), Ok(toks)) => match line_runs(
                toks,
                Style::default_spec(),
                region.left as int,
                region.top as int,
                gw,
                true,
            ) {
                Ok((rs, _st, _c)) => region.left + toks_width(toks) < gw ==> runs_text(rs)
                    == toks_text(toks) && (0 <= i < rs.len() && 0 <= j < rs[i].text.len()
                    && char_width_of(rs[i].text[j]) >= 1 && rs[i].x + text_width_of(
                    rs[i].text.take(j + 1),
                ) <= gw ==> g2[region.top as int][rs[i].x + text_width_of(rs[i].text.take(j))]
                    == (Cell { ch: rs[i].text[j], style: rs[i].style })),
                Err(_) => false,
            },
            (Ok(_), Err(_)) => false,
            (Err(_), _) => true,
        },
{
    let top = region.top as int;
    let left = region.left as int;
    let height = region.height as int;
    lemma_split_no_newline(s, 0, Seq::empty());
    assert(Seq::<char>::empty() + s.subrange(0, s.len() as int) =~= s);
    assert(split_lines_spec(s) == seq![s]);
    assert(seq![s][0] == s);
    match tokenize_from(s, 0) {
        Ok(toks) => {
            match line_runs(toks, Style::default_spec(), left, top, gw, true) {
                Ok((rs, st, _c)) => {
                    assert(plan_from(seq![s], 1, st, top, left, height, gw, gh) == Ok::<
                        (Seq<SpecRun>, Style),
                        RenderError,
                    >((Seq::empty(), st)));
                    assert(plan_from(seq![s], 0, Style::default_spec(), top, left, height, gw, gh)
                        == Ok::<(Seq<SpecRun>, Style), RenderError>((rs + Seq::empty(), st)));
                    assert(rs + Seq::<SpecRun>::empty() =~= rs);
                    if left + toks_width(toks) < gw {
                        lemma_line_text_preserved(toks, Style::default_spec(), left, top, gw);
                        lemma_line_runs_within(toks, Style::default_spec(), left, top, gw, true);
                        if 0 <= i < rs.len() && 0 <= j < rs[i].text.len() {
                            lemma_round_trip_runs(g, rs, gw, top, left, i, j);
                        }
                    }
                },
                Err(_) => {},
            }
        },
        Err(_) => {},
    }
}

/// A line with no escape character tokenizes to one text run holding
/// exactly the line.
pub proof fn lemma_plain_line_single_token(s: Seq<char>)
    requires
        forall|k: int| 0 <= k < s.len() ==> s[k] != esc_char(),
    ensures
        s.len() == 0 ==> tokenize_from(s, 0) == Ok::<Seq<SpecToken>, RenderError>(Seq::empty()),
        s.len() > 0 ==> tokenize_from(s, 0) == Ok::<Seq<SpecToken>, RenderError>(
            seq![SpecToken::Text(s)],
        ),
{
    if s.len() > 0 {
        lemma_scan_text_bounds(s, 0, Seq::empty());
        let (t, n) = scan_text(s, 0, Seq::empty());
        assert(n == s.len());
        assert(t =~= s);
        assert(tokenize_from(s, s.len() as int) == Ok::<Seq<SpecToken>, RenderError>(
            Seq::empty(),
        ));
        assert(seq![SpecToken::Text(t)] + Seq::<SpecToken>::empty() =~= seq![SpecToken::Text(s)]);
    }
}


} // verus!
