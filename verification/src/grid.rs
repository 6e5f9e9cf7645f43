//! The destination: a fixed-size rectangular grid of styled character
//! cells, the shape a terminal display consumes.

use vstd::prelude::*;
use crate::style::Style;
use crate::width::char_width;
use crate::width::char_width_of;

verus! {

/// One cell of the grid: a character and the style it is shown with.
#[derive(Clone, Copy, Debug, PartialEq, Eq)]
pub struct Cell {
    pub ch: char,
    pub style: Style,
}

/// The cell an untouched grid position holds: a space in the default
/// style.
pub open spec fn blank_cell() -> Cell {
    Cell { ch: ' ', style: Style::default_spec() }
}

/// `g` with the cell at row `y`, column `x` replaced.
pub open spec fn put_cell(g: Seq<Seq<Cell>>, y: int, x: int, c: Cell) -> Seq<Seq<Cell>> {
    g.update(y, g[y].update(x, c))
}

/// Writes `t` left to right into row `y` starting at column `x`: each
/// character takes the cells its display width covers, with the run's
/// style on its first cell and blanks on the hidden ones; zero-width
/// characters are skipped; the run stops at the first character that
/// does not fit before the right edge `gw`.
pub open spec fn write_text_spec(
    g: Seq<Seq<Cell>>,
    y: int,
    x: int,
    t: Seq<char>,
    style: Style,
    gw: int,
) -> Seq<Seq<Cell>>
    decreases t.len(),
{
    if t.len() == 0 {
        g
    } else {
        let w = char_width_of(t[0]) as int;
        if w == 0 {
            write_text_spec(g, y, x, t.skip(1), style, gw)
        } else if x + w > gw {
            g
        } else {
            let g1 = put_cell(g, y, x, Cell { ch: t[0], style });
            let g2 = if w >= 2 {
                put_cell(g1, y, x + 1, blank_cell())
            } else {
                g1
            };
            let g3 = if w >= 3 {
                put_cell(g2, y, x + 2, blank_cell())
            } else {
                g2
            };
            write_text_spec(g3, y, x + w, t.skip(1), style, gw)
        }
    }
}

/// A rectangular grid of styled character cells.
pub struct Grid {
    width: usize,
    height: usize,
    cells: Vec<Vec<Cell>>,
}

impl View for Grid {
    type V = Seq<Seq<Cell>>;

    closed spec fn view(&self) -> Seq<Seq<Cell>> {
        self.cells@.map_values(|r: Vec<Cell>| r@)
    }
}

impl Grid {
    pub closed spec fn spec_width(self) -> int {
        self.width as int
    }

    pub closed spec fn spec_height(self) -> int {
        self.height as int
    }

    /// The grid is rectangular: one row per unit of height, each of
    /// the grid's width.
    pub open spec fn wf(self) -> bool {
        &&& self@.len() == self.spec_height()
        &&& forall|y: int| 0 <= y < self@.len() ==> (#[trigger] self@[y]).len() == self.spec_width()
    }

    /// A fresh grid, every cell blank.
    pub fn new(width: usize, height: usize) -> (g: Grid)
        ensures
            g.wf(),
            g.spec_width() == width,
            g.spec_height() == height,
            forall|y: int, x: int|
                0 <= y < height && 0 <= x < width ==> g@[y][x] == blank_cell(),
    {
        let mut cells: Vec<Vec<Cell>> = Vec::new();
        let mut y: usize = 0;
        while y < height
            invariant
                y <= height,
                cells@.len() == y,
                forall|j: int| 0 <= j < y ==> (#[trigger] cells@[j])@.len() == width,
                forall|j: int, x: int|
                    0 <= j < y && 0 <= x < width ==> cells@[j]@[x] == blank_cell(),
            decreases height - y,
        {
            let mut row: Vec<Cell> = Vec::new();
            let mut x: usize = 0;
            while x < width
                invariant
                    x <= width,
                    row@.len() == x,
                    forall|k: int| 0 <= k < x ==> row@[k] == blank_cell(),
                decreases width - x,
            {
                row.push(Cell { ch: ' ', style: Style::default() });
                x = x + 1;
            }
            cells.push(row);
            y = y + 1;
        }
        Grid { width, height, cells }
    }

    /// The grid's total width in columns.
    pub fn width(&self) -> (w: usize)
        ensures
            w == self.spec_width(),
    {
        self.width
    }

    /// The grid's height in rows.
    pub fn height(&self) -> (h: usize)
        ensures
            h == self.spec_height(),
    {
        self.height
    }

    /// The cell at row `y`, column `x`.
    pub fn get(&self, y: usize, x: usize) -> (c: Cell)
        requires
            self.wf(),
            y < self.spec_height(),
            x < self.spec_width(),
        ensures
            c == self@[y as int][x as int],
    {
        self.cells[y][x]
    }

    /// The characters of row `y`, styles dropped.
    pub fn row_chars(&self, y: usize) -> (r: Vec<char>)
        requires
            self.wf(),
            y < self.spec_height(),
        ensures
            r@.len() == self.spec_width(),
            forall|x: int| 0 <= x < self.spec_width() ==> r@[x] == self@[y as int][x].ch,
    {
        let mut r: Vec<char> = Vec::new();
        let mut x: usize = 0;
        while x < self.width
            invariant
                self.wf(),
                y < self.spec_height(),
                x <= self.spec_width(),
                r@.len() == x,
                forall|k: int| 0 <= k < x ==> r@[k] == self@[y as int][k].ch,
            decreases self.width - x,
        {
            r.push(self.cells[y][x].ch);
            x = x + 1;
        }
        r
    }

    /// Writes a text run into row `y` from column `x` on with one
    /// style, clipping at the right edge.
    pub fn write_text(&mut self, y: usize, x: usize, text: &Vec<char>, style: &Style)
        requires
            old(self).wf(),
            y < old(self).spec_height(),
            x + 3 * text@.len() <= usize::MAX,
        ensures
            final(self).wf(),
            final(self).spec_width() == old(self).spec_width(),
            final(self).spec_height() == old(self).spec_height(),
            final(self)@ == write_text_spec(
                old(self)@,
                y as int,
                x as int,
                text@,
                *style,
                old(self).spec_width(),
            ),
    {
        let ghost g0 = self@;
        let gw = self.width;
        let mut cx = x;
        let mut i: usize = 0;
        proof {
            assert(text@.skip(0) =~= text@);
        }
        while i < text.len()
            invariant
                old(self).wf(),
                g0 == old(self)@,
                self.wf(),
                self.width == old(self).width,
                self.height == old(self).height,
                gw == self.spec_width(),
                y < self.spec_height(),
                i <= text@.len(),
                cx <= x + 3 * i,
                x + 3 * text@.len() <= usize::MAX,
                write_text_spec(g0, y as int, x as int, text@, *style, gw as int)
                    == write_text_spec(
                    self@,
                    y as int,
                    cx as int,
                    text@.skip(i as int),
                    *style,
                    gw as int,
                ),
            decreases text@.len() - i,
        {
            let c = text[i];
            let w = char_width(c);
            proof {
                assert(text@.skip(i as int)[0] == text@[i as int]);
                assert(text@.skip(i as int).skip(1) =~= text@.skip(i as int + 1));
            }
            if w == 0 {
                i = i + 1;
            } else if cx + w > gw {
                proof {
                    assert(write_text_spec(
                        self@,
                        y as int,
                        cx as int,
                        text@.skip(i as int),
                        *style,
                        gw as int,
                    ) == self@);
                }
                return ;
            } else {
                let ghost before = self@;
                self.cells[y][cx] = Cell { ch: c, style: *style };
                proof {
                    assert(self@ =~= put_cell(before, y as int, cx as int, Cell { ch: c, style: *style }));
                }
                if w >= 2 {
                    let ghost b2 = self@;
                    self.cells[y][cx + 1] = Cell { ch: ' ', style: Style::default() };
                    proof {
                        assert(self@ =~= put_cell(b2, y as int, cx as int + 1, blank_cell()));
                    }
                }
                if w >= 3 {
                    let ghost b3 = self@;
                    self.cells[y][cx + 2] = Cell { ch: ' ', style: Style::default() };
                    proof {
                        assert(self@ =~= put_cell(b3, y as int, cx as int + 2, blank_cell()));
                    }
                }
                cx = cx + w;
                i = i + 1;
            }
        }
        proof {
            assert(text@.skip(text@.len() as int) =~= Seq::<char>::empty());
        }
    }
}

} // verus!
