//! The escape-aware renderer: consumes a source string holding line
//! breaks and SGR escape sequences, and writes styled text runs into a
//! destination grid region.
//!
//! Rendering happens in two phases.  Planning scans every line,
//! threads one running style through the whole scan, and produces the
//! list of styled runs that would be written, or the first error the
//! input provokes.  Applying writes the planned runs into the grid.
//! On an error nothing is applied, so the grid is never left half
//! updated.

use vstd::prelude::*;
use vstd::string::StrSliceExecFns;
use crate::grid::Cell;
use crate::grid::Grid;
use crate::grid::write_text_spec;
use crate::scan::SpecToken;
use crate::scan::Token;
use crate::scan::esc_char;
use crate::scan::lines_view;
use crate::scan::scan_escape;
use crate::scan::split_lines;
use crate::scan::split_lines_spec;
use crate::scan::split_rec;
use crate::scan::tokenize;
use crate::scan::tokenize_from;
use crate::scan::tokens_view;
use crate::scan::lemma_scan_escape_bounds;
use crate::scan::lemma_scan_text_bounds;
use crate::scan::scan_text;
use crate::style::RenderError;
use crate::style::Style;
use crate::style::apply_graphics;
use crate::style::apply_graphics_spec;
use crate::width::text_width;
use crate::width::text_width_of;

verus! {

/// The destination region: a rectangle whose top-left corner is
/// `(top, left)`, `height` rows tall and `width` columns wide.  The
/// renderer clips rows at `top + height` and the grid's bottom edge;
/// following the terminal buffer it writes into, it clips columns at
/// the grid's own total width, not at `left + width`.
#[derive(Clone, Copy, Debug, PartialEq, Eq)]
pub struct Region {
    pub top: usize,
    pub left: usize,
    pub width: usize,
    pub height: usize,
}

/// One planned write: `text` at row `y`, column `x`, in `style`.
pub struct Run {
    pub y: usize,
    pub x: usize,
    pub text: Vec<char>,
    pub style: Style,
}

/// Mathematical counterpart of `Run`.
pub struct SpecRun {
    pub y: int,
    pub x: int,
    pub text: Seq<char>,
    pub style: Style,
}

impl View for Run {
    type V = SpecRun;

    open spec fn view(&self) -> SpecRun {
        SpecRun { y: self.y as int, x: self.x as int, text: self.text@, style: self.style }
    }
}

/// The run views of a run sequence.
pub open spec fn runs_view(rs: Seq<Run>) -> Seq<SpecRun> {
    rs.map_values(|r: Run| r@)
}

/// The characters held by the text tokens of a token sequence.
pub open spec fn toks_text_len(ts: Seq<SpecToken>) -> nat
    decreases ts.len(),
{
    if ts.len() == 0 {
        0
    } else {
        (match ts[0] {
            SpecToken::Text(t) => t.len(),
            _ => 0,
        }) + toks_text_len(ts.skip(1))
    }
}

/// Folds the tokens of one line, starting at column `col` of row
/// `row` with the running style: a text run at a column left of the
/// grid's right edge `gw` is emitted (if `emit`) and advances the
/// column by its display width; a text run starting at or past the
/// edge is dropped whole; a graphics code transforms the style; a
/// reset code restores the default style.  Yields the emitted runs,
/// the style after the line, and the final column.
pub open spec fn line_runs(
    toks: Seq<SpecToken>,
    style: Style,
    col: int,
    row: int,
    gw: int,
    emit: bool,
) -> Result<(Seq<SpecRun>, Style, int), RenderError>
    decreases toks.len(),
{
    if toks.len() == 0 {
        Ok((Seq::empty(), style, col))
    } else {
        match toks[0] {
            SpecToken::Text(t) => {
                if col < gw {
                    match line_runs(toks.skip(1), style, col + text_width_of(t), row, gw, emit) {
                        Ok((rs, st, c)) => Ok(
                            (
                                if emit {
                                    seq![SpecRun { y: row, x: col, text: t, style }] + rs
                                } else {
                                    rs
                                },
                                st,
                                c,
                            ),
                        ),
                        Err(e) => Err(e),
                    }
                } else {
                    line_runs(toks.skip(1), style, col, row, gw, emit)
                }
            },
            SpecToken::SetGraphics(ps) => match apply_graphics_spec(style, ps) {
                Ok(st) => line_runs(toks.skip(1), st, col, row, gw, emit),
                Err(e) => Err(e),
            },
            SpecToken::Reset(_) => line_runs(
                toks.skip(1),
                Style::default_spec(),
                col,
                row,
                gw,
                emit,
            ),
        }
    }
}

/// Plans the lines from index `i` on.  Line `i` lands on row
/// `top + i`; a line beyond the region's height or the grid's bottom
/// edge `gh` is scanned (its escapes still change the style and still
/// report errors) but emits no runs.  The style carries from line to
/// line.
pub open spec fn plan_from(
    lines: Seq<Seq<char>>,
    i: int,
    style: Style,
    top: int,
    left: int,
    height: int,
    gw: int,
    gh: int,
) -> Result<(Seq<SpecRun>, Style), RenderError>
    decreases lines.len() - i,
{
    if i < 0 || i >= lines.len() {
        Ok((Seq::empty(), style))
    } else {
        match tokenize_from(lines[i], 0) {
            Err(e) => Err(e),
            Ok(toks) => {
                let emit = i < height && top + i < gh;
                match line_runs(toks, style, left, top + i, gw, emit) {
                    Err(e) => Err(e),
                    Ok((rs, st, _c)) => match plan_from(
                        lines,
                        i + 1,
                        st,
                        top,
                        left,
                        height,
                        gw,
                        gh,
                    ) {
                        Ok((rest, fin)) => Ok((rs + rest, fin)),
                        Err(e) => Err(e),
                    },
                }
            },
        }
    }
}

/// Writes the planned runs into the grid, in order.
pub open spec fn apply_runs_spec(g: Seq<Seq<Cell>>, rs: Seq<SpecRun>, gw: int) -> Seq<Seq<Cell>>
    decreases rs.len(),
{
    if rs.len() == 0 {
        g
    } else {
        apply_runs_spec(
            write_text_spec(g, rs[0].y, rs[0].x, rs[0].text, rs[0].style, gw),
            rs.skip(1),
            gw,
        )
    }
}

/// What rendering `src` into a grid `g` of width `gw` and height `gh`
/// over `region` yields: the grid with every planned run written, or
/// the first error the input provokes.
pub open spec fn render_spec(
    g: Seq<Seq<Cell>>,
    src: Seq<char>,
    region: Region,
    gw: int,
    gh: int,
) -> Result<Seq<Seq<Cell>>, RenderError> {
    match plan_from(
        split_lines_spec(src),
        0,
        Style::default_spec(),
        region.top as int,
        region.left as int,
        region.height as int,
        gw,
        gh,
    ) {
        Err(e) => Err(e),
        Ok((rs, _st)) => Ok(apply_runs_spec(g, rs, gw)),
    }
}

/// With no runs emitted, the fold does not depend on the row, and
/// yields no runs.
pub proof fn lemma_line_runs_row_any(
    toks: Seq<SpecToken>,
    style: Style,
    col: int,
    r1: int,
    r2: int,
    gw: int,
)
    ensures
        line_runs(toks, style, col, r1, gw, false) == line_runs(toks, style, col, r2, gw, false),
        match line_runs(toks, style, col, r1, gw, false) {
            Ok((rs, _st, _c)) => rs.len() == 0,
            Err(_) => true,
        },
    decreases toks.len(),
{
    if toks.len() > 0 {
        match toks[0] {
            SpecToken::Text(t) => {
                if col < gw {
                    lemma_line_runs_row_any(toks.skip(1), style, col + text_width_of(t), r1, r2, gw);
                } else {
                    lemma_line_runs_row_any(toks.skip(1), style, col, r1, r2, gw);
                }
            },
            SpecToken::SetGraphics(ps) => {
                match apply_graphics_spec(style, ps) {
                    Ok(st) => lemma_line_runs_row_any(toks.skip(1), st, col, r1, r2, gw),
                    Err(_) => {},
                }
            },
            SpecToken::Reset(_) => {
                lemma_line_runs_row_any(toks.skip(1), Style::default_spec(), col, r1, r2, gw);
            },
        }
    }
}

/// A tokenized line's text tokens hold at most as many characters as
/// the line.
pub proof fn lemma_tokenize_text_len(s: Seq<char>, i: int)
    requires
        0 <= i <= s.len(),
    ensures
        match tokenize_from(s, i) {
            Ok(ts) => toks_text_len(ts) <= s.len() - i,
            Err(_) => true,
        },
    decreases s.len() - i,
{
    if i < s.len() {
        if s[i] == esc_char() {
            lemma_scan_escape_bounds(s, i);
            match scan_escape(s, i) {
                Ok((t, n)) => {
                    lemma_tokenize_text_len(s, n);
                    match tokenize_from(s, n) {
                        Ok(ts) => {
                            assert((seq![t] + ts)[0] == t);
                            assert((seq![t] + ts).skip(1) =~= ts);
                        },
                        Err(_) => {},
                    }
                },
                Err(_) => {},
            }
        } else {
            lemma_scan_text_bounds(s, i, Seq::empty());
            let (t, n) = scan_text(s, i, Seq::empty());
            lemma_tokenize_text_len(s, n);
            match tokenize_from(s, n) {
                Ok(ts) => {
                    assert((seq![SpecToken::Text(t)] + ts)[0] == SpecToken::Text(t));
                    assert((seq![SpecToken::Text(t)] + ts).skip(1) =~= ts);
                    assert(t =~= Seq::<char>::empty() + s.subrange(i, n));
                    assert(t.len() == n - i);
                },
                Err(_) => {},
            }
        }
    }
}

/// Every line the splitter yields is at most as long as the input.
pub proof fn lemma_split_line_lens(s: Seq<char>, i: int, cur: Seq<char>)
    requires
        0 <= i <= s.len(),
    ensures
        forall|k: int|
            0 <= k < split_rec(s, i, cur).len() ==> (#[trigger] split_rec(s, i, cur)[k]).len()
                <= cur.len() + s.len() - i,
    decreases s.len() - i,
{
    if i >= s.len() {
    } else if s[i] == '\n' {
        lemma_split_line_lens(s, i + 1, Seq::empty());
        assert forall|k: int| 0 <= k < split_rec(s, i, cur).len() implies (#[trigger] split_rec(
            s,
            i,
            cur,
        )[k]).len() <= cur.len() + s.len() - i by {
            if k > 0 {
                assert(split_rec(s, i, cur)[k] == split_rec(s, i + 1, Seq::<char>::empty())[k - 1]);
            }
        }
    } else {
        lemma_split_line_lens(s, i + 1, cur.push(s[i]));
        assert(split_rec(s, i, cur) == split_rec(s, i + 1, cur.push(s[i])));
        assert forall|k: int| 0 <= k < split_rec(s, i, cur).len() implies (#[trigger] split_rec(
            s,
            i,
            cur,
        )[k]).len() <= cur.len() + s.len() - i by {
            assert(split_rec(s, i, cur)[k] == split_rec(s, i + 1, cur.push(s[i]))[k]);
            assert(split_rec(s, i + 1, cur.push(s[i]))[k].len() <= cur.push(s[i]).len() + s.len()
                - (i + 1));
        }
    }
}

fn copy_chars(t: &Vec<char>) -> (r: Vec<char>)
    ensures
        r@ == t@,
{
    let mut r: Vec<char> = Vec::new();
    let mut i: usize = 0;
    while i < t.len()
        invariant
            i <= t@.len(),
            r@.len() == i,
            forall|k: int| 0 <= k < i ==> r@[k] == t@[k],
        decreases t@.len() - i,
    {
        r.push(t[i]);
        i = i + 1;
    }
    proof {
        assert(r@ =~= t@);
    }
    r
}

fn line_runs_exec(
    toks: &Vec<Token>,
    k: usize,
    style: Style,
    col: usize,
    row: usize,
    emit: bool,
    gw: usize,
) -> (r: Result<(Vec<Run>, Style, usize), RenderError>)
    requires
        k <= toks@.len(),
        col + 3 * toks_text_len(tokens_view(toks@).skip(k as int)) <= usize::MAX,
    ensures
        ({
            match (
                r,
                line_runs(
                    tokens_view(toks@).skip(k as int),
                    style,
                    col as int,
                    row as int,
                    gw as int,
                    emit,
                ),
            ) {
                (Ok((rs, st, c)), Ok((srs, sst, sc))) => {
                    &&& runs_view(rs@) == srs
                    &&& st == sst
                    &&& c == sc
                    &&& forall|j: int|
                        0 <= j < rs@.len() ==> (#[trigger] rs@[j]).y == row && rs@[j].x < gw
                            && rs@[j].x + 3 * rs@[j].text@.len() <= usize::MAX
                },
                (Err(a), Err(b)) => a == b,
                _ => false,
            }
        }),
    decreases toks@.len() - k,
{
    let ghost stoks = tokens_view(toks@).skip(k as int);
    if k >= toks.len() {
        proof {
            assert(stoks =~= Seq::<SpecToken>::empty());
            assert(runs_view(Seq::<Run>::empty()) =~= Seq::<SpecRun>::empty());
        }
        let v: Vec<Run> = Vec::new();
        return Ok((v, style, col));
    }
    proof {
        assert(stoks[0] == toks@[k as int]@);
        assert(stoks.skip(1) =~= tokens_view(toks@).skip(k as int + 1));
    }
    match &toks[k] {
        Token::Text(t) => {
            proof {
                assert(toks_text_len(stoks) == t@.len() + toks_text_len(stoks.skip(1)));
            }
            let tw = text_width(t);
            if col < gw {
                if emit {
                    let run = Run { y: row, x: col, text: copy_chars(t), style };
                    match line_runs_exec(toks, k + 1, style, col + tw, row, emit, gw) {
                        Err(e) => Err(e),
                        Ok((mut rs, st, c)) => {
                            let ghost old_rs = rs@;
                            rs.insert(0, run);
                            proof {
                                assert(rs@ =~= seq![run] + old_rs);
                                assert(runs_view(seq![run] + old_rs) =~= seq![run@] + runs_view(
                                    old_rs,
                                ));
                            }
                            Ok((rs, st, c))
                        },
                    }
                } else {
                    line_runs_exec(toks, k + 1, style, col + tw, row, emit, gw)
                }
            } else {
                line_runs_exec(toks, k + 1, style, col, row, emit, gw)
            }
        },
        Token::SetGraphics(ps) => {
            proof {
                assert(toks_text_len(stoks) == toks_text_len(stoks.skip(1)));
            }
            match apply_graphics(&style, ps) {
                Ok(st) => line_runs_exec(toks, k + 1, st, col, row, emit, gw),
                Err(e) => Err(e),
            }
        },
        Token::Reset(_) => {
            proof {
                assert(toks_text_len(stoks) == toks_text_len(stoks.skip(1)));
            }
            line_runs_exec(toks, k + 1, Style::default(), col, row, emit, gw)
        },
    }
}

fn plan_rec(
    lines: &Vec<Vec<char>>,
    i: usize,
    style: Style,
    top: usize,
    left: usize,
    height: usize,
    gw: usize,
    gh: usize,
) -> (r: Result<(Vec<Run>, Style), RenderError>)
    requires
        i <= lines@.len(),
        forall|j: int|
            0 <= j < lines@.len() ==> left + 3 * (#[trigger] lines@[j])@.len() <= usize::MAX,
    ensures
        ({
            match (
                r,
                plan_from(
                    lines_view(lines@),
                    i as int,
                    style,
                    top as int,
                    left as int,
                    height as int,
                    gw as int,
                    gh as int,
                ),
            ) {
                (Ok((rs, st)), Ok((srs, sst))) => {
                    &&& runs_view(rs@) == srs
                    &&& st == sst
                    &&& forall|j: int|
                        0 <= j < rs@.len() ==> (#[trigger] rs@[j]).y < gh && rs@[j].x + 3
                            * rs@[j].text@.len() <= usize::MAX
                },
                (Err(a), Err(b)) => a == b,
                _ => false,
            }
        }),
    decreases lines@.len() - i,
{
    if i >= lines.len() {
        let v: Vec<Run> = Vec::new();
        proof {
            assert(runs_view(v@) =~= Seq::<SpecRun>::empty());
        }
        return Ok((v, style));
    }
    let line = &lines[i];
    proof {
        assert(lines_view(lines@)[i as int] == line@);
    }
    match tokenize(line) {
        Err(e) => Err(e),
        Ok(toks) => {
            proof {
                lemma_tokenize_text_len(line@, 0);
                assert(tokens_view(toks@).skip(0) =~= tokens_view(toks@));
            }
            let emit = i < height && top < gh && i < gh - top;
            proof {
                assert(emit == (i < height && top + i < gh));
            }
            let row = if emit {
                top + i
            } else {
                0
            };
            proof {
                if !emit {
                    lemma_line_runs_row_any(
                        tokens_view(toks@),
                        style,
                        left as int,
                        0,
                        top as int + i as int,
                        gw as int,
                    );
                }
            }
            match line_runs_exec(&toks, 0, style, left, row, emit, gw) {
                Err(e) => Err(e),
                Ok((mut rs, st, _c)) => {
                    match plan_rec(lines, i + 1, st, top, left, height, gw, gh) {
                        Err(e) => Err(e),
                        Ok((mut rest, fin)) => {
                            let ghost a = rs@;
                            let ghost b = rest@;
                            rs.append(&mut rest);
                            proof {
                                assert(rs@ =~= a + b);
                                assert(runs_view(a + b) =~= runs_view(a) + runs_view(b));
                                if !emit {
                                    assert(runs_view(a).len() == 0);
                                    assert(a.len() == 0);
                                }
                                assert forall|j: int|
                                    0 <= j < rs@.len() implies (#[trigger] rs@[j]).y < gh
                                    && rs@[j].x + 3 * rs@[j].text@.len() <= usize::MAX by {
                                    if j < a.len() {
                                        assert(rs@[j] == a[j]);
                                    } else {
                                        assert(rs@[j] == b[j - a.len()]);
                                    }
                                }
                            }
                            Ok((rs, fin))
                        },
                    }
                },
            }
        },
    }
}

/// Renders the source text into the grid over the given region:
/// splits it into lines, scans each line's text runs and escape
/// codes with one running style (reset only at the start of the
/// render), and writes the styled runs, clipping at the grid's right
/// edge and skipping lines below the region or the grid.  On an
/// error the grid is untouched; on success the grid holds exactly
/// what the rendering model prescribes.
pub fn render(grid: &mut Grid, source: &Vec<char>, region: &Region) -> (r: Result<
    (),
    RenderError,
>)
    requires
        old(grid).wf(),
        region.left + 3 * source@.len() <= usize::MAX,
    ensures
        final(grid).wf(),
        final(grid).spec_width() == old(grid).spec_width(),
        final(grid).spec_height() == old(grid).spec_height(),
        match r {
            Ok(()) => render_spec(
                old(grid)@,
                source@,
                *region,
                old(grid).spec_width(),
                old(grid).spec_height(),
            ) == Ok::<Seq<Seq<Cell>>, RenderError>(final(grid)@),
            Err(e) => {
                &&& render_spec(
                    old(grid)@,
                    source@,
                    *region,
                    old(grid).spec_width(),
                    old(grid).spec_height(),
                ) == Err::<Seq<Seq<Cell>>, RenderError>(e)
                &&& final(grid)@ == old(grid)@
            },
        },
{
    let lines = split_lines(source);
    proof {
        lemma_split_line_lens(source@, 0, Seq::empty());
        assert(forall|j: int|
            0 <= j < lines@.len() ==> region.left + 3 * (#[trigger] lines@[j])@.len()
                <= usize::MAX) by {
            assert(forall|j: int|
                0 <= j < lines@.len() ==> (#[trigger] lines@[j])@ == lines_view(lines@)[j]);
        }
    }
    let gw = grid.width();
    let gh = grid.height();
    match plan_rec(&lines, 0, Style::default(), region.top, region.left, region.height, gw, gh) {
        Err(e) => Err(e),
        Ok((runs, _st)) => {
            let ghost g0 = grid@;
            let ghost srs = runs_view(runs@);
            let mut j: usize = 0;
            proof {
                assert(srs.skip(0) =~= srs);
            }
            while j < runs.len()
                invariant
                    grid.wf(),
                    grid.spec_width() == gw,
                    grid.spec_height() == gh,
                    j <= runs@.len(),
                    srs == runs_view(runs@),
                    forall|t: int|
                        0 <= t < runs@.len() ==> (#[trigger] runs@[t]).y < gh && runs@[t].x + 3
                            * runs@[t].text@.len() <= usize::MAX,
                    apply_runs_spec(g0, srs, gw as int) == apply_runs_spec(
                        grid@,
                        srs.skip(j as int),
                        gw as int,
                    ),
                decreases runs@.len() - j,
            {
                let run = &runs[j];
                proof {
                    assert(srs.skip(j as int)[0] == runs@[j as int]@);
                }
                grid.write_text(run.y, run.x, &run.text, &run.style);
                proof {
                    assert(srs.skip(j as int).skip(1) =~= srs.skip(j as int + 1));
                }
                j = j + 1;
            }
            proof {
                assert(srs.skip(runs@.len() as int) =~= Seq::<SpecRun>::empty());
            }
            Ok(())
        },
    }
}

/// The characters of a string slice.
pub fn to_chars(s: &str) -> (r: Vec<char>)
    ensures
        r@ == s@,
{
    let n = s.unicode_len();
    let mut r: Vec<char> = Vec::new();
    let mut i: usize = 0;
    while i < n
        invariant
            i <= n,
            n == s@.len(),
            r@.len() == i,
            forall|k: int| 0 <= k < i ==> r@[k] == s@[k],
        decreases n - i,
    {
        r.push(s.get_char(i));
        i = i + 1;
    }
    proof {
        assert(r@ =~= s@);
    }
    r
}

/// Renders a string slice; see [`render`].
pub fn render_str(grid: &mut Grid, source: &str, region: &Region) -> (r: Result<(), RenderError>)
    requires
        old(grid).wf(),
        region.left + 3 * source@.len() <= usize::MAX,
    ensures
        final(grid).wf(),
        final(grid).spec_width() == old(grid).spec_width(),
        final(grid).spec_height() == old(grid).spec_height(),
        match r {
            Ok(()) => render_spec(
                old(grid)@,
                source@,
                *region,
                old(grid).spec_width(),
                old(grid).spec_height(),
            ) == Ok::<Seq<Seq<Cell>>, RenderError>(final(grid)@),
            Err(e) => {
                &&& render_spec(
                    old(grid)@,
                    source@,
                    *region,
                    old(grid).spec_width(),
                    old(grid).spec_height(),
                ) == Err::<Seq<Seq<Cell>>, RenderError>(e)
                &&& final(grid)@ == old(grid)@
            },
        },
{
    let chars = to_chars(source);
    render(grid, &chars, region)
}

} // verus!
