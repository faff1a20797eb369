//! Which sixel pictures a frame writes, and which cells it writes again for them.
//!
//! A sixel is written over the cells like text, and text written later over it wipes it. So a
//! picture is written again whenever it is new, moved or cut differently, after the terminal
//! lost the screen, or when a cell under it was written this frame. A place no longer shown
//! leaves its pixels behind until its cells are written, so the cells the frame did not change
//! are written again for it. A frame whose places and cells are what the terminal shows writes
//! nothing.
//!
//! Places are known by their keys; which cells a frame leaves as they were, the caller tells by
//! comparing the cells shown with those about to be written, row by row over the screen.

use vstd::prelude::*;

use crate::decimal::{decimal, push_decimal, put};
use crate::kitty::PlaceKey;
use crate::sixel::{pixel_size, CELL};

verus! {

/// A screen area: column, row, columns and rows.
pub type Area = (u16, u16, u16, u16);

/// `a + b`, or the largest `u16` when that does not fit.
pub open spec fn sat_add(a: u16, b: u16) -> u16 {
    if a + b <= u16::MAX { (a + b) as u16 } else { u16::MAX }
}

/// The lesser of `a` and `b`.
pub open spec fn least(a: u16, b: u16) -> u16 {
    if a <= b { a } else { b }
}

/// The column just right of the cells of `key` within `area`.
pub open spec fn right_of(key: PlaceKey, area: Area) -> u16 {
    least(sat_add(key.column, key.columns), sat_add(area.0, area.2))
}

/// The row just below the cells of `key` within `area`.
pub open spec fn bottom_of(key: PlaceKey, area: Area) -> u16 {
    least(sat_add(key.row, key.rows), sat_add(area.1, area.3))
}

/// The cells of row `y` from column `from` up to, not including, `to`.
pub open spec fn row_cells(from: u16, to: u16, y: u16) -> Seq<(u16, u16)> {
    Seq::new(if to > from { (to - from) as nat } else { 0 }, |i: int| ((from + i) as u16, y))
}

/// The cells of `key` within `area` on the rows from its first up to, not including, `y`.
pub open spec fn cells_until(key: PlaceKey, area: Area, y: int) -> Seq<(u16, u16)>
    decreases y - key.row,
{
    if y <= key.row {
        Seq::empty()
    } else {
        cells_until(key, area, y - 1) + row_cells(key.column, right_of(key, area), (y - 1) as u16)
    }
}

/// The cells of `key` within `area`, row by row.
pub open spec fn place_cells(key: PlaceKey, area: Area) -> Seq<(u16, u16)> {
    cells_until(key, area, bottom_of(key, area) as int)
}

/// Whether the frame leaves cell `p` as it was, told by `same`, row by row over `area`.
pub open spec fn unchanged(same: Seq<bool>, area: Area, p: (u16, u16)) -> bool {
    same[(p.1 - area.1) * area.2 + (p.0 - area.0)]
}

/// `acc` with the cells of `cells` that the frame leaves as they were, each once.
pub open spec fn add_repaints(acc: Seq<(u16, u16)>, cells: Seq<(u16, u16)>, same: Seq<bool>, area: Area) -> Seq<(u16, u16)>
    decreases cells.len(),
{
    if cells.len() == 0 {
        acc
    } else {
        let before = add_repaints(acc, cells.drop_last(), same, area);
        let p = cells.last();
        if unchanged(same, area, p) && !before.contains(p) {
            before.push(p)
        } else {
            before
        }
    }
}

/// The cells to write again for the places of `shown` that `keys` no longer show.
pub open spec fn repaints(shown: Seq<PlaceKey>, keys: Seq<PlaceKey>, same: Seq<bool>, area: Area) -> Seq<(u16, u16)>
    decreases shown.len(),
{
    if shown.len() == 0 {
        Seq::empty()
    } else {
        let before = repaints(shown.drop_last(), keys, same, area);
        let gone = shown.last();
        if keys.contains(gone) {
            before
        } else {
            add_repaints(before, place_cells(gone, area), same, area)
        }
    }
}

/// Whether a cell under `key` is written this frame, or the screen is not known.
pub open spec fn written_over(key: PlaceKey, same: Option<Seq<bool>>, area: Area) -> bool {
    match same {
        None => true,
        Some(s) => exists|i: int| 0 <= i < place_cells(key, area).len() && !unchanged(s, area, #[trigger] place_cells(key, area)[i]),
    }
}

/// Whether a place over `columns` × `rows` cells shrinks to any pixel with cells of `cell`.
pub open spec fn has_pixels(columns: u16, rows: u16, cell: (u16, u16)) -> bool {
    columns * cell.0 > 0 && (rows * cell.1) / 6 * 6 > 0
}

/// The indices below `n` of the places of `keys` written this frame.
pub open spec fn writes(keys: Seq<PlaceKey>, shown: Seq<PlaceKey>, same: Option<Seq<bool>>, area: Area, cell: (u16, u16), n: int) -> Seq<usize>
    decreases n,
{
    if n <= 0 {
        Seq::empty()
    } else {
        let key = keys[n - 1];
        writes(keys, shown, same, area, cell, n - 1) + if (written_over(key, same, area) || !shown.contains(key))
            && has_pixels(key.columns, key.rows, cell) {
            seq![(n - 1) as usize]
        } else {
            Seq::empty()
        }
    }
}

/// Whether every place of `keys` starts inside `area`.
pub open spec fn inside(keys: Seq<PlaceKey>, area: Area) -> bool {
    forall|i: int| 0 <= i < keys.len() ==> (#[trigger] keys[i]).column >= area.0 && keys[i].row >= area.1
}

/// What a frame writes for its sixel pictures, after its cells.
#[derive(Debug, PartialEq, Eq)]
pub struct SixelPlan {
    /// Cells to write again although they did not change, since a picture no longer shown
    /// covers them: column and row.
    pub repaint: Vec<(u16, u16)>,
    /// The indices of the places to write, each after moving the cursor to its first cell.
    pub write: Vec<usize>,
}

/// The sixel places a screen shows, and the size of a cell in pixels.
pub struct SixelPictures {
    shown: Vec<PlaceKey>,
    cell: (u16, u16),
}

/// What a [`SixelPictures`] holds.
pub struct SixelView {
    pub shown: Seq<PlaceKey>,
    pub cell: (u16, u16),
}

impl View for SixelPictures {
    type V = SixelView;

    closed spec fn view(&self) -> SixelView {
        SixelView { shown: self.shown@, cell: self.cell }
    }
}

/// `a + b`, or the largest `u16` when that does not fit.
fn saturating(a: u16, b: u16) -> (sum: u16)
    ensures
        sum == sat_add(a, b),
{
    if a as u32 + b as u32 <= 65535 {
        a + b
    } else {
        65535
    }
}

/// Whether `keys` holds `key`.
fn holds(keys: &Vec<PlaceKey>, key: PlaceKey) -> (found: bool)
    ensures
        found == keys@.contains(key),
{
    let mut i: usize = 0;
    while i < keys.len()
        invariant
            i <= keys@.len(),
            forall|j: int| 0 <= j < i ==> keys@[j] != key,
        decreases keys@.len() - i,
    {
        if keys[i] == key {
            assert(keys@[i as int] == key);
            return true;
        }
        i = i + 1;
    }
    false
}

/// Whether `cells` holds `p`.
fn holds_cell(cells: &Vec<(u16, u16)>, p: (u16, u16)) -> (found: bool)
    ensures
        found == cells@.contains(p),
{
    let mut i: usize = 0;
    while i < cells.len()
        invariant
            i <= cells@.len(),
            forall|j: int| 0 <= j < i ==> cells@[j] != p,
        decreases cells@.len() - i,
    {
        if cells[i].0 == p.0 && cells[i].1 == p.1 {
            assert(cells@[i as int] == p);
            return true;
        }
        i = i + 1;
    }
    false
}

/// Whether the frame leaves the cell at column `x`, row `y` as it was.
fn is_unchanged(same: &[bool], area: Area, x: u16, y: u16) -> (kept: bool)
    requires
        same@.len() == area.2 * area.3,
        area.0 <= x < area.0 + area.2,
        area.1 <= y < area.1 + area.3,
    ensures
        kept == unchanged(same@, area, (x, y)),
{
    let row = (y - area.1) as usize;
    let column = (x - area.0) as usize;
    let width = area.2 as usize;
    assert(row * width + column < area.2 * area.3) by (nonlinear_arith)
        requires
            row < area.3,
            column < width,
            width == area.2,
    {
        assert(row * width + column < row * width + width);
        assert(row * width + width == (row + 1) * width);
        assert((row + 1) * width <= area.3 * width);
    }
    let n = same.len();
    assert(row * width + column < n);
    same[row * width + column]
}

proof fn lemma_add_repaints_append(acc: Seq<(u16, u16)>, a: Seq<(u16, u16)>, b: Seq<(u16, u16)>, same: Seq<bool>, area: Area)
    ensures
        add_repaints(acc, a + b, same, area) == add_repaints(add_repaints(acc, a, same, area), b, same, area),
    decreases b.len(),
{
    if b.len() == 0 {
        assert(a + b =~= a);
    } else {
        assert((a + b).drop_last() =~= a + b.drop_last());
        assert((a + b).last() == b.last());
        lemma_add_repaints_append(acc, a, b.drop_last(), same, area);
    }
}

proof fn lemma_row_cells_push(from: u16, to: u16, y: u16)
    requires
        from <= to < u16::MAX,
    ensures
        row_cells(from, (to + 1) as u16, y) == row_cells(from, to, y).push((to, y)),
{
    assert(row_cells(from, (to + 1) as u16, y) =~= row_cells(from, to, y).push((to, y)));
}

impl SixelPictures {
    /// A screen showing no sixel picture, with cells of the common size.
    pub fn new() -> (pictures: Self)
        ensures
            pictures@.shown.len() == 0,
            pictures@.cell == CELL,
    {
        SixelPictures { shown: Vec::new(), cell: CELL }
    }

    /// Takes the size of a cell in pixels, as the terminal reports it; a size with no pixel is
    /// ignored.
    pub fn set_cell(&mut self, cell: (u16, u16))
        ensures
            final(self)@.shown == old(self)@.shown,
            final(self)@.cell == (if cell.0 > 0 && cell.1 > 0 { cell } else { old(self)@.cell }),
    {
        if cell.0 > 0 && cell.1 > 0 {
            self.cell = cell;
        }
    }

    /// Forgets the places shown, for when the terminal is handed to a program or left.
    pub fn release(&mut self)
        ensures
            final(self)@.shown.len() == 0,
            final(self)@.cell == old(self)@.cell,
    {
        self.shown = Vec::new();
    }

    /// Appends to `acc` the cells of `key` within `area` the frame leaves as they were, each once.
    fn add_cells(acc: &mut Vec<(u16, u16)>, key: PlaceKey, same: &[bool], area: Area)
        requires
            same@.len() == area.2 * area.3,
            key.column >= area.0,
            key.row >= area.1,
        ensures
            final(acc)@ == add_repaints(old(acc)@, place_cells(key, area), same@, area),
    {
        let right = if saturating(key.column, key.columns) < saturating(area.0, area.2) {
            saturating(key.column, key.columns)
        } else {
            saturating(area.0, area.2)
        };
        let bottom = if saturating(key.row, key.rows) < saturating(area.1, area.3) {
            saturating(key.row, key.rows)
        } else {
            saturating(area.1, area.3)
        };
        let ghost start = old(acc)@;
        let mut y: u16 = key.row;
        if y >= bottom {
            return;
        }
        while y < bottom
            invariant
                key.row <= y <= bottom,
                right == right_of(key, area),
                bottom == bottom_of(key, area),
                same@.len() == area.2 * area.3,
                key.column >= area.0,
                key.row >= area.1,
                acc@ == add_repaints(start, cells_until(key, area, y as int), same@, area),
            decreases bottom - y,
        {
            let ghost row_start = acc@;
            let mut x: u16 = key.column;
            while x < right
                invariant
                    key.column <= x,
                    x <= right || x == key.column,
                    key.row <= y < bottom,
                    right == right_of(key, area),
                    bottom == bottom_of(key, area),
                    same@.len() == area.2 * area.3,
                    key.column >= area.0,
                    key.row >= area.1,
                    acc@ == add_repaints(row_start, row_cells(key.column, x, y), same@, area),
                decreases right - x,
            {
                let kept = is_unchanged(same, area, x, y);
                proof {
                    lemma_row_cells_push(key.column, x, y);
                    let grown = row_cells(key.column, (x + 1) as u16, y);
                    assert(grown.drop_last() =~= row_cells(key.column, x, y));
                    assert(grown.last() == (x, y));
                }
                if kept && !holds_cell(acc, (x, y)) {
                    acc.push((x, y));
                }
                x = x + 1;
            }
            proof {
                assert(row_cells(key.column, x, y) =~= row_cells(key.column, right, y));
                lemma_add_repaints_append(start, cells_until(key, area, y as int), row_cells(key.column, right, y), same@, area);
            }
            y = y + 1;
        }
    }

    /// Whether a cell under `key` within `area` is written this frame.
    fn is_written_over(key: PlaceKey, same: &[bool], area: Area) -> (over: bool)
        requires
            same@.len() == area.2 * area.3,
            key.column >= area.0,
            key.row >= area.1,
        ensures
            over == written_over(key, Some(same@), area),
    {
        let right = if saturating(key.column, key.columns) < saturating(area.0, area.2) {
            saturating(key.column, key.columns)
        } else {
            saturating(area.0, area.2)
        };
        let bottom = if saturating(key.row, key.rows) < saturating(area.1, area.3) {
            saturating(key.row, key.rows)
        } else {
            saturating(area.1, area.3)
        };
        let ghost cells = place_cells(key, area);
        let mut y: u16 = key.row;
        if y >= bottom {
            assert(cells.len() == 0);
            return false;
        }
        while y < bottom
            invariant
                key.row <= y <= bottom,
                right == right_of(key, area),
                bottom == bottom_of(key, area),
                same@.len() == area.2 * area.3,
                key.column >= area.0,
                key.row >= area.1,
                forall|i: int| 0 <= i < cells_until(key, area, y as int).len() ==> unchanged(same@, area, #[trigger] cells_until(key, area, y as int)[i]),
            decreases bottom - y,
        {
            let mut x: u16 = key.column;
            while x < right
                invariant
                    key.column <= x,
                    x <= right || x == key.column,
                    key.row <= y < bottom,
                    right == right_of(key, area),
                    bottom == bottom_of(key, area),
                    same@.len() == area.2 * area.3,
                    key.column >= area.0,
                    key.row >= area.1,
                    forall|i: int| 0 <= i < cells_until(key, area, y as int).len() ==> unchanged(same@, area, #[trigger] cells_until(key, area, y as int)[i]),
                    forall|i: int| 0 <= i < row_cells(key.column, x, y).len() ==> unchanged(same@, area, #[trigger] row_cells(key.column, x, y)[i]),
                decreases right - x,
            {
                if !is_unchanged(same, area, x, y) {
                    proof {
                        let row = row_cells(key.column, right, y);
                        let before = cells_until(key, area, y as int);
                        let k = (x - key.column) as int;
                        assert(row[k] == (x, y));
                        let upto = cells_until(key, area, (y + 1) as int);
                        assert(upto == before + row);
                        assert(upto[before.len() + k] == (x, y));
                        lemma_cells_until_prefix(key, area, (y + 1) as int, bottom as int);
                        let idx = before.len() + k;
                        assert(cells_until(key, area, bottom as int)[idx] == upto[idx]);
                        assert(place_cells(key, area) == cells_until(key, area, bottom as int));
                        assert(place_cells(key, area)[idx] == (x, y));
                        assert(!unchanged(same@, area, place_cells(key, area)[idx]));
                    }
                    return true;
                }
                proof {
                    lemma_row_cells_push(key.column, x, y);
                    let grown = row_cells(key.column, (x + 1) as u16, y);
                    assert forall|i: int| 0 <= i < grown.len() implies unchanged(same@, area, #[trigger] grown[i]) by {
                        if i < grown.len() - 1 {
                            assert(grown[i] == row_cells(key.column, x, y)[i]);
                        } else {
                            assert(grown[i] == (x, y));
                        }
                    }
                }
                x = x + 1;
            }
            proof {
                let before = cells_until(key, area, y as int);
                let row = row_cells(key.column, right, y);
                assert(row_cells(key.column, x, y) =~= row);
                assert(cells_until(key, area, (y + 1) as int) == before + row);
                assert forall|i: int| 0 <= i < (before + row).len() implies unchanged(same@, area, #[trigger] (before + row)[i]) by {
                    if i >= before.len() {
                        assert((before + row)[i] == row[i - before.len()]);
                        assert(row_cells(key.column, x, y)[i - before.len()] == row[i - before.len()]);
                    }
                }
            }
            y = y + 1;
        }
        false
    }

    /// What takes the terminal from the places shown to `keys`: the cells to write again for
    /// places no longer shown, and the places to write. `same` tells, row by row over `area`,
    /// which cells the frame leaves as they were; `None` when the terminal's contents are not
    /// known, and then every place is written. Notes `keys` as shown.
    pub fn frame(&mut self, keys: &[PlaceKey], same: Option<&[bool]>, area: Area) -> (plan: SixelPlan)
        requires
            same matches Some(s) ==> s@.len() == area.2 * area.3 && inside(keys@, area) && inside(old(self)@.shown, area),
        ensures
            final(self)@.shown == keys@,
            final(self)@.cell == old(self)@.cell,
            plan.repaint@ == (match same {
                Some(s) => repaints(old(self)@.shown, keys@, s@, area),
                None => Seq::empty(),
            }),
            plan.write@ == writes(keys@, old(self)@.shown, match same {
                Some(s) => Some(s@),
                None => None,
            }, area, old(self)@.cell, keys@.len() as int),
    {
        let ghost seen = match same {
            Some(s) => Some(s@),
            None => None,
        };
        let mut repaint: Vec<(u16, u16)> = Vec::new();
        let mut chosen: Vec<PlaceKey> = Vec::new();
        let mut k: usize = 0;
        while k < keys.len()
            invariant
                k <= keys@.len(),
                chosen@ == keys@.take(k as int),
            decreases keys@.len() - k,
        {
            chosen.push(keys[k]);
            assert(keys@.take(k + 1) =~= keys@.take(k as int).push(keys@[k as int]));
            k = k + 1;
        }
        assert(keys@.take(k as int) =~= keys@);
        match same {
            Some(s) => {
                let mut i: usize = 0;
                while i < self.shown.len()
                    invariant
                        i <= self@.shown.len(),
                        self@ == old(self)@,
                        chosen@ == keys@,
                        s@.len() == area.2 * area.3,
                        inside(self@.shown, area),
                        repaint@ == repaints(self@.shown.take(i as int), keys@, s@, area),
                    decreases self@.shown.len() - i,
                {
                    let gone = self.shown[i];
                    assert(self@.shown.take(i + 1).drop_last() =~= self@.shown.take(i as int));
                    if !holds(&chosen, gone) {
                        Self::add_cells(&mut repaint, gone, s, area);
                    }
                    i = i + 1;
                }
                assert(self@.shown.take(i as int) =~= self@.shown);
            },
            None => {},
        }
        let mut write: Vec<usize> = Vec::new();
        let mut j: usize = 0;
        while j < keys.len()
            invariant
                j <= keys@.len(),
                self@ == old(self)@,
                chosen@ == keys@,
                same matches Some(s) ==> s@.len() == area.2 * area.3 && inside(keys@, area),
                seen == (match same {
                    Some(s) => Some(s@),
                    None => None,
                }),
                write@ == writes(keys@, self@.shown, seen, area, self@.cell, j as int),
            decreases keys@.len() - j,
        {
            let key = keys[j];
            let over = match same {
                Some(s) => Self::is_written_over(key, s, area),
                None => true,
            };
            let size = pixel_size((key.columns, key.rows), self.cell);
            if (over || !holds(&self.shown, key)) && size.0 > 0 && size.1 > 0 {
                write.push(j);
            }
            j = j + 1;
        }
        self.shown = chosen;
        SixelPlan { repaint, write }
    }
}

proof fn lemma_cells_until_prefix(key: PlaceKey, area: Area, y: int, z: int)
    requires
        y <= z,
    ensures
        cells_until(key, area, y).len() <= cells_until(key, area, z).len(),
        forall|i: int| 0 <= i < cells_until(key, area, y).len() ==> #[trigger] cells_until(key, area, z)[i] == cells_until(key, area, y)[i],
    decreases z - y,
{
    if y < z {
        lemma_cells_until_prefix(key, area, y, z - 1);
        if z > key.row {
            let before = cells_until(key, area, z - 1);
            let row = row_cells(key.column, right_of(key, area), (z - 1) as u16);
            assert forall|i: int| 0 <= i < cells_until(key, area, y).len() implies #[trigger] cells_until(key, area, z)[i] == cells_until(key, area, y)[i] by {
                assert((before + row)[i] == before[i]);
            }
        }
    }
}

/// Appends the cursor move to the first cell of a place at `column`, `row`.
pub fn move_to(out: &mut Vec<u8>, column: u16, row: u16)
    ensures
        final(out)@ == old(out)@ + seq![27u8, 91u8] + decimal(row as nat + 1) + seq![59u8] + decimal(column as nat + 1) + seq![72u8],
{
    put(out, &[27u8, 91u8]);
    push_decimal(out, row as u64 + 1);
    put(out, &[59u8]);
    push_decimal(out, column as u64 + 1);
    out.push(72u8);
    assert(out@ =~= old(out)@ + seq![27u8, 91u8] + decimal(row as nat + 1) + seq![59u8] + decimal(column as nat + 1) + seq![72u8]);
}

/// A frame whose places and cells are what the terminal shows writes nothing: no cell again
/// and no picture.
pub proof fn lemma_an_unchanged_frame_writes_nothing(s: SixelView, same: Seq<bool>, area: Area)
    requires
        forall|i: int, k: int| 0 <= k < s.shown.len() && 0 <= i < place_cells(s.shown[k], area).len() ==> unchanged(same, area, #[trigger] place_cells(s.shown[k], area)[i]),
    ensures
        repaints(s.shown, s.shown, same, area).len() == 0,
        writes(s.shown, s.shown, Some(same), area, s.cell, s.shown.len() as int).len() == 0,
{
    lemma_no_repaints(s.shown, s.shown, same, area);
    lemma_no_writes(s.shown, same, area, s.cell, s.shown.len() as int);
}

proof fn lemma_no_repaints(shown: Seq<PlaceKey>, keys: Seq<PlaceKey>, same: Seq<bool>, area: Area)
    requires
        forall|i: int| 0 <= i < shown.len() ==> keys.contains(#[trigger] shown[i]),
    ensures
        repaints(shown, keys, same, area).len() == 0,
    decreases shown.len(),
{
    if shown.len() > 0 {
        assert(keys.contains(shown[shown.len() - 1]));
        assert forall|i: int| 0 <= i < shown.drop_last().len() implies keys.contains(#[trigger] shown.drop_last()[i]) by {
            assert(shown.drop_last()[i] == shown[i]);
        }
        lemma_no_repaints(shown.drop_last(), keys, same, area);
    }
}

proof fn lemma_no_writes(keys: Seq<PlaceKey>, same: Seq<bool>, area: Area, cell: (u16, u16), n: int)
    requires
        n <= keys.len(),
        forall|i: int, k: int| 0 <= k < keys.len() && 0 <= i < place_cells(keys[k], area).len() ==> unchanged(same, area, #[trigger] place_cells(keys[k], area)[i]),
    ensures
        writes(keys, keys, Some(same), area, cell, n).len() == 0,
    decreases n,
{
    if n > 0 {
        lemma_no_writes(keys, same, area, cell, n - 1);
        let key = keys[n - 1];
        assert(keys.contains(key));
        assert(!written_over(key, Some(same), area)) by {
            assert forall|i: int| 0 <= i < place_cells(key, area).len() implies unchanged(same, area, #[trigger] place_cells(key, area)[i]) by {
                assert(place_cells(keys[n - 1], area)[i] == place_cells(key, area)[i]);
            }
        }
    }
}

} // verus!
