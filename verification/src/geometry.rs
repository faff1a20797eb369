//! Rectangles of screen cells, and the symbols a frame drew in them.

use vstd::prelude::*;

verus! {

/// A rectangle of screen cells: its top left corner and its size.
#[derive(Debug, Clone, Copy, PartialEq, Eq, Structural)]
pub struct Rect {
    pub x: i32,
    pub y: i32,
    pub width: u16,
    pub height: u16,
}

impl Rect {
    /// The column just right of the rectangle.
    pub open spec fn right_edge(self) -> int {
        self.x + self.width
    }

    /// The row just below the rectangle.
    pub open spec fn bottom_edge(self) -> int {
        self.y + self.height
    }

    /// Whether the rectangle's far edges are columns and rows too.
    pub open spec fn fits(self) -> bool {
        self.right_edge() <= i32::MAX && self.bottom_edge() <= i32::MAX
    }

    /// Whether the cell at column `x`, row `y` lies inside.
    pub open spec fn covers(self, x: int, y: int) -> bool {
        self.x <= x < self.right_edge() && self.y <= y < self.bottom_edge()
    }

    /// The rectangle at `x`, `y` of `width` columns and `height` rows.
    pub fn new(x: i32, y: i32, width: u16, height: u16) -> (rect: Self)
        ensures
            rect == (Rect { x, y, width, height }),
    {
        Rect { x, y, width, height }
    }

    /// The column just right of the rectangle.
    pub fn right(&self) -> (right: i32)
        requires
            self.fits(),
        ensures
            right == self.right_edge(),
    {
        self.x + self.width as i32
    }

    /// The row just below the rectangle.
    pub fn bottom(&self) -> (bottom: i32)
        requires
            self.fits(),
        ensures
            bottom == self.bottom_edge(),
    {
        self.y + self.height as i32
    }

    /// Whether the cell at column `x`, row `y` lies inside.
    pub fn contains(&self, x: i32, y: i32) -> (inside: bool)
        ensures
            inside == self.covers(x as int, y as int),
    {
        let (x, y) = (x as i64, y as i64);
        self.x as i64 <= x && x < self.x as i64 + self.width as i64 && self.y as i64 <= y && y < self.y as i64
            + self.height as i64
    }

    /// Whether no cell lies inside.
    pub fn is_empty(&self) -> (empty: bool)
        ensures
            empty == (self.width == 0 || self.height == 0),
    {
        self.width == 0 || self.height == 0
    }
}

/// The symbols a frame drew, row by row, in the area it covers.
pub struct Cells {
    area: Rect,
    symbols: Vec<String>,
}

/// What a frame drew: the area it covers and the symbol of each cell, row by row.
pub struct CellsView {
    pub area: Rect,
    pub symbols: Seq<Seq<char>>,
}

impl View for Cells {
    type V = CellsView;

    closed spec fn view(&self) -> CellsView {
        CellsView { area: self.area, symbols: self.symbols@.map_values(|s: String| s@) }
    }
}

/// The symbol drawn at column `x`, row `y`: empty outside the area.
pub open spec fn symbol_at(cells: CellsView, x: int, y: int) -> Seq<char> {
    let area = cells.area;
    let index = (y - area.y) * area.width + (x - area.x);
    if area.covers(x, y) && index < cells.symbols.len() {
        cells.symbols[index]
    } else {
        Seq::empty()
    }
}

impl Cells {
    /// The symbols drawn in `area`, row by row.
    pub fn new(area: Rect, symbols: Vec<String>) -> (cells: Self)
        ensures
            cells@.area == area,
            cells@.symbols == symbols@.map_values(|s: String| s@),
    {
        Cells { area, symbols }
    }

    /// The symbol drawn at column `x`, row `y`: empty outside the area.
    pub fn symbol(&self, x: i32, y: i32) -> (symbol: &str)
        ensures
            symbol@ == symbol_at(self@, x as int, y as int),
    {
        proof {
            reveal_strlit("");
        }
        let area = self.area;
        if !area.contains(x, y) {
            return "";
        }
        let row = (y as i64 - area.y as i64) as usize;
        let column = (x as i64 - area.x as i64) as usize;
        assert(row < 65536 && column < 65536 && area.width < 65536);
        assert(row * area.width + column < 65536 * 65536) by (nonlinear_arith)
            requires
                row < 65536,
                column < 65536,
                area.width < 65536,
                column < area.width,
        {
            assert(row * area.width <= 65535 * area.width);
        }
        let index = row * area.width as usize + column;
        assert(index == (y - area.y) * area.width + (x - area.x));
        if index < self.symbols.len() {
            self.symbols[index].as_str()
        } else {
            ""
        }
    }
}

} // verus!
