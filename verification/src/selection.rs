//! Selecting text on screen with the mouse.
//!
//! A selection stays inside its region, the innermost selectable area under the press. Dragging
//! extends it by cells; a double press selects a word, a triple press a line. Releasing only
//! keeps the selection. A clean copy leaves out decoration cells and the spaces that pad the end
//! of each line, and keeps the spaces between words and the line breaks; a raw copy keeps every
//! cell as shown. The selection follows the widget it started on, so it stays on the same text
//! while that content scrolls.
//!
//! Widgets are known here by their ids; which region and which widget lie under a press, and
//! where they are after a new layout, the caller looks up in its frame. Times are nanoseconds.

use vstd::prelude::*;

use crate::geometry::{symbol_at, Cells, CellsView, Rect};
use crate::text::{chars_of, is_whitespace, push_char, trim_end};

verus! {

/// Presses closer together than this, in nanoseconds, on the same cell count as double and
/// triple presses.
pub const MULTI_PRESS: u64 = 400_000_000;

/// How much a selection covers around the pressed cells.
#[derive(Debug, Clone, Copy, PartialEq, Eq, Structural)]
pub enum Unit {
    Cell,
    Word,
    Line,
}

/// How selected text is copied.
#[derive(Debug, Clone, Copy, PartialEq, Eq, Structural)]
pub enum CopyKind {
    /// Without decoration cells and without the spaces that pad each line's end.
    Clean,
    /// Every selected cell exactly as shown.
    Raw,
}

/// A press remembered to recognise double and triple presses.
#[derive(Debug, Clone, Copy, PartialEq, Eq)]
pub struct Press {
    pub at: (i32, i32),
    pub time: u64,
    pub count: u8,
}

/// Whether a press at `at` at `time` follows `last` closely enough to continue its series.
pub open spec fn continues(last: Press, at: (i32, i32), time: u64) -> bool {
    last.at == at && (if time >= last.time { time - last.time } else { 0 }) < MULTI_PRESS
}

/// What a press counted `count` selects.
pub open spec fn unit_of(count: u8) -> Unit {
    if count == 1 {
        Unit::Cell
    } else if count == 2 {
        Unit::Word
    } else {
        Unit::Line
    }
}

impl Press {
    /// The press at `at`, counting it as the next of a series when it follows `last` closely:
    /// one, two, three, then one again.
    pub fn next(last: Option<Press>, at: (i32, i32), time: u64) -> (press: Press)
        ensures
            press.at == at,
            press.time == time,
            press.count == (match last {
                Some(l) => if continues(l, at, time) { (l.count % 3 + 1) as u8 } else { 1u8 },
                None => 1u8,
            }),
    {
        let count: u8 = match last {
            Some(l) => {
                let waited = if time >= l.time { time - l.time } else { 0 };
                if l.at.0 == at.0 && l.at.1 == at.1 && waited < MULTI_PRESS {
                    l.count % 3 + 1
                } else {
                    1
                }
            },
            None => 1,
        };
        Press { at, time, count }
    }
}

/// A selection in screen cells.
pub struct Selection {
    region: Rect,
    /// The selectable widget the selection belongs to.
    owner: u64,
    /// The owner's child under the press, e.g. a scroll view's content without its scrollbar.
    inner: Option<u64>,
    /// The smallest widget under the press and where it was, so the selection moves with it.
    followed: Option<(u64, Rect)>,
    anchor: (i32, i32),
    head: (i32, i32),
    unit: Unit,
    /// Whether the pointer is still down.
    pub dragging: bool,
    /// Whether anything is selected yet; a plain press selects nothing until it moves.
    visible: bool,
    /// Copy the text at the next render, when the cells are at hand.
    pub copy_pending: Option<CopyKind>,
    copied_at: Option<u64>,
    /// The selected cells as painted last, one rect per row.
    painted: Vec<Rect>,
}

/// What a selection holds.
pub struct SelectionView {
    pub region: Rect,
    pub owner: u64,
    pub inner: Option<u64>,
    pub followed: Option<(u64, Rect)>,
    pub anchor: (i32, i32),
    pub head: (i32, i32),
    pub unit: Unit,
    pub dragging: bool,
    pub visible: bool,
    pub copy_pending: Option<CopyKind>,
    pub copied_at: Option<u64>,
    pub painted: Seq<Rect>,
}

impl View for Selection {
    type V = SelectionView;

    closed spec fn view(&self) -> SelectionView {
        SelectionView {
            region: self.region,
            owner: self.owner,
            inner: self.inner,
            followed: self.followed,
            anchor: self.anchor,
            head: self.head,
            unit: self.unit,
            dragging: self.dragging,
            visible: self.visible,
            copy_pending: self.copy_pending,
            copied_at: self.copied_at,
            painted: self.painted@,
        }
    }
}

/// Whether the region holds a cell and its far edges are cells of the screen.
pub open spec fn usable(region: Rect) -> bool {
    region.fits() && region.width > 0 && region.height > 0
}

/// `v` kept between `low` and `high`.
pub open spec fn clamped(v: int, low: int, high: int) -> int {
    if v < low {
        low
    } else if v > high {
        high
    } else {
        v
    }
}

/// Whether cell `a` comes before cell `b`, or is it, in reading order.
pub open spec fn reading_le(a: (i32, i32), b: (i32, i32)) -> bool {
    a.1 < b.1 || (a.1 == b.1 && a.0 <= b.0)
}

/// The characters that join letters and digits into a word: identifiers, paths, addresses and
/// numbers stay together.
pub open spec fn joiner(c: char) -> bool {
    c == '_' || c == '-' || c == '.' || c == '/' || c == ':' || c == '@' || c == '~' || c == '#' || c == '%'
        || c == '+' || c == '='
}

/// Whether `c` is alphabetic or numeric, as `char::is_alphanumeric` tells.
pub uninterp spec fn alphanumeric(c: char) -> bool;

/// Whether `c` is a letter or a digit.
///
/// Calls `char::is_alphanumeric`; its contract claims only that the answer is [`alphanumeric`]
/// of `c`, a function of the character alone.
#[verifier::external_body]
fn is_alphanumeric(c: char) -> (yes: bool)
    ensures
        yes == alphanumeric(c),
{
    c.is_alphanumeric()
}

/// Whether a cell showing `symbol` belongs to a word.
pub open spec fn is_word(symbol: Seq<char>) -> bool {
    symbol.len() > 0 && forall|i: int| 0 <= i < symbol.len() ==> alphanumeric(#[trigger] symbol[i]) || joiner(symbol[i])
}

/// Where the word around column `x` of row `y` starts, no further left than the region.
pub open spec fn word_start(cells: CellsView, region: Rect, x: int, y: int) -> int
    decreases x - region.x,
{
    if x > region.x && is_word(symbol_at(cells, x - 1, y)) {
        word_start(cells, region, x - 1, y)
    } else {
        x
    }
}

/// Where the word around column `x` of row `y` ends, no further right than the region.
pub open spec fn word_end(cells: CellsView, region: Rect, x: int, y: int) -> int
    decreases region.right_edge() - x,
{
    if x + 1 < region.right_edge() && is_word(symbol_at(cells, x + 1, y)) {
        word_end(cells, region, x + 1, y)
    } else {
        x
    }
}

/// The first and last selected cells of `s`, in reading order, expanded to words or lines.
pub open spec fn span_of(s: SelectionView, cells: CellsView) -> ((int, int), (int, int)) {
    let (start, end) = if reading_le(s.anchor, s.head) {
        (s.anchor, s.head)
    } else {
        (s.head, s.anchor)
    };
    match s.unit {
        Unit::Cell => ((start.0 as int, start.1 as int), (end.0 as int, end.1 as int)),
        Unit::Line => ((s.region.x as int, start.1 as int), (s.region.right_edge() - 1, end.1 as int)),
        Unit::Word => (
            (
                if is_word(symbol_at(cells, start.0 as int, start.1 as int)) {
                    word_start(cells, s.region, start.0 as int, start.1 as int)
                } else {
                    start.0 as int
                },
                start.1 as int,
            ),
            (
                if is_word(symbol_at(cells, end.0 as int, end.1 as int)) {
                    word_end(cells, s.region, end.0 as int, end.1 as int)
                } else {
                    end.0 as int
                },
                end.1 as int,
            ),
        ),
    }
}

/// The columns of row `y` that `span` selects, clipped to `region`, or `None`.
pub open spec fn columns_of(region: Rect, span: ((int, int), (int, int)), y: int) -> Option<(int, int)> {
    let ((start_x, start_y), (end_x, end_y)) = span;
    if y < start_y || y > end_y || y < region.y || y >= region.bottom_edge() {
        None
    } else {
        let from = if y == start_y { start_x } else { region.x as int };
        let to = if y == end_y { end_x } else { region.right_edge() - 1 };
        let from = if from < region.x { region.x as int } else { from };
        let to = if to > region.right_edge() - 1 { region.right_edge() - 1 } else { to };
        if from <= to {
            Some((from, to))
        } else {
            None
        }
    }
}

/// Whether the selection's anchor and head, moved by the followed widget's move to `now`, are
/// cells of the screen.
pub open spec fn shift_fits(s: SelectionView, now: Option<Rect>) -> bool {
    match (s.followed, now) {
        (Some((_, old)), Some(new)) => {
            let dx = new.x - old.x;
            let dy = new.y - old.y;
            &&& i32::MIN <= dx <= i32::MAX
            &&& i32::MIN <= dy <= i32::MAX
            &&& i32::MIN <= s.anchor.0 + dx <= i32::MAX
            &&& i32::MIN <= s.anchor.1 + dy <= i32::MAX
            &&& i32::MIN <= s.head.0 + dx <= i32::MAX
            &&& i32::MIN <= s.head.1 + dy <= i32::MAX
        },
        _ => true,
    }
}

/// The selection `s` after a new layout in which the owner's region is `region` and the
/// followed widget is at `now`, and whether it is kept. A region gone or holding no cell drops
/// it unchanged; a followed widget gone drops it with the region taken; otherwise anchor and
/// head move with the followed widget, so they stay on the same text.
pub open spec fn followed(s: SelectionView, region: Option<Rect>, now: Option<Rect>) -> (SelectionView, bool) {
    match region {
        Some(r) if usable(r) => {
            let moved = SelectionView { region: r, ..s };
            match (s.followed, now) {
                (Some(_), None) => (moved, false),
                (Some((id, old)), Some(new)) => {
                    let dx = new.x - old.x;
                    let dy = new.y - old.y;
                    (
                        SelectionView {
                            anchor: ((s.anchor.0 + dx) as i32, (s.anchor.1 + dy) as i32),
                            head: ((s.head.0 + dx) as i32, (s.head.1 + dy) as i32),
                            followed: Some((id, new)),
                            ..moved
                        },
                        true,
                    )
                },
                (None, _) => (moved, true),
            }
        },
        _ => (s, false),
    }
}

/// Whether `symbol` belongs to a word.
fn word_symbol(symbol: &str) -> (word: bool)
    ensures
        word == is_word(symbol@),
{
    let chars = chars_of(symbol);
    if chars.len() == 0 {
        return false;
    }
    let mut i: usize = 0;
    while i < chars.len()
        invariant
            i <= chars@.len(),
            chars@ == symbol@,
            forall|j: int| 0 <= j < i ==> alphanumeric(#[trigger] chars@[j]) || joiner(chars@[j]),
        decreases chars@.len() - i,
    {
        let c = chars[i];
        let joins = c == '_' || c == '-' || c == '.' || c == '/' || c == ':' || c == '@' || c == '~' || c == '#'
            || c == '%' || c == '+' || c == '=';
        if !joins && !is_alphanumeric(c) {
            return false;
        }
        i = i + 1;
    }
    true
}

/// Whether column `x` of row `y` is copied: every cell in a raw copy, those outside the
/// decorations in a clean one.
pub open spec fn kept(kind: CopyKind, decorations: Seq<Rect>, x: int, y: int) -> bool {
    kind == CopyKind::Raw || !(exists|i: int| 0 <= i < decorations.len() && (#[trigger] decorations[i]).covers(x, y))
}

/// The symbols of the copied cells of row `y`, from column `from` up to, not including, `to`.
pub open spec fn row_text(cells: CellsView, kind: CopyKind, decorations: Seq<Rect>, from: int, to: int, y: int) -> Seq<
    char,
>
    decreases to - from,
{
    if to <= from {
        Seq::empty()
    } else {
        row_text(cells, kind, decorations, from, to - 1, y) + if kept(kind, decorations, to - 1, y) {
            symbol_at(cells, to - 1, y)
        } else {
            Seq::empty()
        }
    }
}

/// Whether any cell of row `y` from column `from` up to, not including, `to` is copied.
pub open spec fn row_copied(kind: CopyKind, decorations: Seq<Rect>, from: int, to: int, y: int) -> bool {
    exists|x: int| from <= x < to && #[trigger] kept(kind, decorations, x, y)
}

/// The line copied of row `y`, when any cell of it is: without the white space that pads its
/// end in a clean copy.
pub open spec fn line_of(
    region: Rect,
    cells: CellsView,
    kind: CopyKind,
    decorations: Seq<Rect>,
    span: ((int, int), (int, int)),
    y: int,
) -> Option<Seq<char>> {
    match columns_of(region, span, y) {
        Some((from, to)) => if row_copied(kind, decorations, from, to + 1, y) {
            let line = row_text(cells, kind, decorations, from, to + 1, y);
            Some(if kind == CopyKind::Clean { trim_end(line) } else { line })
        } else {
            None
        },
        None => None,
    }
}

/// The lines copied of the rows from the span's first up to, not including, row `y`.
pub open spec fn lines_until(
    region: Rect,
    cells: CellsView,
    kind: CopyKind,
    decorations: Seq<Rect>,
    span: ((int, int), (int, int)),
    y: int,
) -> Seq<Seq<char>>
    decreases y - span.0.1,
{
    if y <= span.0.1 {
        Seq::empty()
    } else {
        lines_until(region, cells, kind, decorations, span, y - 1) + match line_of(
            region,
            cells,
            kind,
            decorations,
            span,
            y - 1,
        ) {
            Some(line) => seq![line],
            None => Seq::empty(),
        }
    }
}

/// `lines` joined with line breaks.
pub open spec fn joined(lines: Seq<Seq<char>>) -> Seq<char>
    decreases lines.len(),
{
    if lines.len() == 0 {
        Seq::empty()
    } else if lines.len() == 1 {
        lines[0]
    } else {
        joined(lines.drop_last()) + seq!['\n'] + lines.last()
    }
}

/// The text a copy of `s` of kind `kind` gives, rows joined with line breaks.
pub open spec fn copied_text(s: SelectionView, cells: CellsView, decorations: Seq<Rect>, kind: CopyKind) -> Seq<char> {
    let span = span_of(s, cells);
    joined(lines_until(s.region, cells, kind, decorations, span, span.1.1 + 1))
}

/// The rows painted for `span` from its first up to, not including, row `y`: one rect per row.
pub open spec fn rows_until(region: Rect, span: ((int, int), (int, int)), y: int) -> Seq<Rect>
    decreases y - span.0.1,
{
    if y <= span.0.1 {
        Seq::empty()
    } else {
        rows_until(region, span, y - 1) + match columns_of(region, span, y - 1) {
            Some((from, to)) => seq![Rect { x: from as i32, y: (y - 1) as i32, width: (to - from + 1) as u16, height: 1 }],
            None => Seq::empty(),
        }
    }
}

/// The rows painted for `s`: none while nothing is selected.
pub open spec fn painted_rows(s: SelectionView, cells: CellsView) -> Seq<Rect> {
    if s.visible {
        let span = span_of(s, cells);
        rows_until(s.region, span, span.1.1 + 1)
    } else {
        Seq::empty()
    }
}

/// Whether a decoration covers column `x` of row `y`.
fn covered(decorations: &Vec<Rect>, x: i32, y: i32) -> (inside: bool)
    ensures
        inside == exists|i: int| 0 <= i < decorations@.len() && (#[trigger] decorations@[i]).covers(x as int, y as int),
{
    let mut i: usize = 0;
    while i < decorations.len()
        invariant
            i <= decorations@.len(),
            forall|j: int| 0 <= j < i ==> !(#[trigger] decorations@[j]).covers(x as int, y as int),
        decreases decorations@.len() - i,
    {
        if decorations[i].contains(x, y) {
            assert(decorations@[i as int].covers(x as int, y as int));
            return true;
        }
        i = i + 1;
    }
    false
}

/// Appends the characters of `text` to `chars`.
fn extend_chars(chars: &mut Vec<char>, text: &str)
    ensures
        final(chars)@ == old(chars)@ + text@,
{
    let more = chars_of(text);
    let mut i: usize = 0;
    while i < more.len()
        invariant
            i <= more@.len(),
            chars@ == old(chars)@ + more@.take(i as int),
        decreases more@.len() - i,
    {
        chars.push(more[i]);
        assert(more@.take(i + 1) =~= more@.take(i as int).push(more@[i as int]));
        i = i + 1;
    }
    assert(more@.take(i as int) =~= more@);
}

/// Appends `chars` to `text`.
fn append_chars(text: &mut String, chars: &Vec<char>)
    ensures
        final(text)@ == old(text)@ + chars@,
{
    let mut i: usize = 0;
    while i < chars.len()
        invariant
            i <= chars@.len(),
            text@ == old(text)@ + chars@.take(i as int),
        decreases chars@.len() - i,
    {
        push_char(text, chars[i]);
        assert(chars@.take(i + 1) =~= chars@.take(i as int).push(chars@[i as int]));
        i = i + 1;
    }
    assert(chars@.take(i as int) =~= chars@);
}

/// `chars` without the white space at their end.
fn without_trailing_white(chars: &Vec<char>) -> (kept: Vec<char>)
    ensures
        kept@ == trim_end(chars@),
{
    let mut end: usize = chars.len();
    assert(chars@.take(end as int) =~= chars@);
    while end > 0 && is_whitespace(chars[end - 1])
        invariant
            end <= chars@.len(),
            trim_end(chars@) == trim_end(chars@.take(end as int)),
        decreases end,
    {
        assert(chars@.take(end as int).drop_last() =~= chars@.take(end - 1));
        end = end - 1;
    }
    let mut kept: Vec<char> = Vec::new();
    let mut i: usize = 0;
    while i < end
        invariant
            i <= end <= chars@.len(),
            kept@ =~= chars@.take(i as int),
        decreases end - i,
    {
        kept.push(chars[i]);
        i = i + 1;
    }
    kept
}

impl Selection {
    /// Whether the selection's region holds a cell and fits the screen.
    pub closed spec fn wf(&self) -> bool {
        usable(self.region)
    }

    /// Starts a selection for `press` inside `region` of widget `owner`, narrowed to its child
    /// `inner`, following the widget `followed` and where it was. `None` when the region holds no
    /// cell. A double or triple press selects at once; a single press selects nothing until it
    /// moves.
    pub fn start(region: Rect, owner: u64, inner: Option<u64>, followed: Option<(u64, Rect)>, press: Press) -> (selection: Option<Self>)
        requires
            region.fits(),
        ensures
            selection is None <==> (region.width == 0 || region.height == 0),
            selection matches Some(s) ==> s.wf() && s@ == (SelectionView {
                region,
                owner,
                inner,
                followed,
                anchor: press.at,
                head: press.at,
                unit: unit_of(press.count),
                dragging: true,
                visible: unit_of(press.count) != Unit::Cell,
                copy_pending: None,
                copied_at: None,
                painted: Seq::empty(),
            }),
    {
        if region.is_empty() {
            return None;
        }
        let unit = if press.count == 1 {
            Unit::Cell
        } else if press.count == 2 {
            Unit::Word
        } else {
            Unit::Line
        };
        Some(
            Selection {
                region,
                owner,
                inner,
                followed,
                anchor: press.at,
                head: press.at,
                unit,
                dragging: true,
                visible: unit != Unit::Cell,
                copy_pending: None,
                copied_at: None,
                painted: Vec::new(),
            },
        )
    }

    /// Asks for the selection to be copied as `kind` at the next frame, when the cells are at
    /// hand.
    pub fn request_copy(&mut self, kind: CopyKind)
        ensures
            final(self)@ == (SelectionView { copy_pending: Some(kind), ..old(self)@ }),
            final(self).wf() == old(self).wf(),
    {
        self.copy_pending = Some(kind);
    }

    /// Whether the pointer that makes the selection is still down.
    pub fn is_dragging(&self) -> (down: bool)
        ensures
            down == self@.dragging,
    {
        self.dragging
    }

    /// The widget the selection belongs to.
    pub fn owner(&self) -> (owner: u64)
        ensures
            owner == self@.owner,
    {
        self.owner
    }

    /// Extends the selection to the pointer at `x`, `y`, kept inside the region. Anything is
    /// selected from the moment the head leaves the anchor.
    pub fn drag_to(&mut self, x: i32, y: i32)
        requires
            old(self).wf(),
        ensures
            final(self).wf(),
            final(self)@.head.0 == clamped(x as int, old(self)@.region.x as int, old(self)@.region.right_edge() - 1),
            final(self)@.head.1 == clamped(y as int, old(self)@.region.y as int, old(self)@.region.bottom_edge() - 1),
            final(self)@.region.covers(final(self)@.head.0 as int, final(self)@.head.1 as int),
            final(self)@.visible == (old(self)@.visible || final(self)@.head != old(self)@.anchor),
            final(self)@ == (SelectionView { head: final(self)@.head, visible: final(self)@.visible, ..old(self)@ }),
            final(self)@ == dragged(old(self)@, x, y),
    {
        let region = self.region;
        let right = region.right() - 1;
        let bottom = region.bottom() - 1;
        let hx = if x < region.x {
            region.x
        } else if x > right {
            right
        } else {
            x
        };
        let hy = if y < region.y {
            region.y
        } else if y > bottom {
            bottom
        } else {
            y
        };
        if hx != self.anchor.0 || hy != self.anchor.1 {
            self.visible = true;
        }
        self.head = (hx, hy);
    }

    /// Ends the drag and keeps what is selected; nothing is copied. Returns `false` when nothing
    /// was selected and the selection should go.
    pub fn release(&mut self) -> (keep: bool)
        ensures
            keep == old(self)@.visible,
            final(self)@ == (SelectionView { dragging: false, ..old(self)@ }),
            final(self).wf() == old(self).wf(),
    {
        self.dragging = false;
        self.visible
    }

    /// Whether the cell is selected, as painted last.
    pub fn contains(&self, x: i32, y: i32) -> (selected: bool)
        ensures
            selected == (self@.visible && exists|i: int|
                0 <= i < self@.painted.len() && (#[trigger] self@.painted[i]).covers(x as int, y as int)),
    {
        if !self.visible {
            return false;
        }
        let mut i: usize = 0;
        while i < self.painted.len()
            invariant
                self@.visible,
                i <= self@.painted.len(),
                forall|j: int| 0 <= j < i ==> !(#[trigger] self@.painted[j]).covers(x as int, y as int),
            decreases self@.painted.len() - i,
        {
            if self.painted[i].contains(x, y) {
                assert(self@.painted[i as int].covers(x as int, y as int));
                return true;
            }
            i = i + 1;
        }
        false
    }

    /// Moves with the followed widget and region after a new layout: `region` is the owner's
    /// region now and `followed_now` where the followed widget is now, `None` when they are gone.
    /// Returns `false` when they are gone.
    pub fn follow(&mut self, region: Option<Rect>, followed_now: Option<Rect>) -> (kept: bool)
        requires
            old(self).wf(),
            shift_fits(old(self)@, followed_now),
            region matches Some(r) ==> r.fits(),
        ensures
            final(self).wf(),
            kept == (region matches Some(r) && usable(r) && (old(self)@.followed is None || followed_now is Some)),
            (final(self)@, kept) == followed(old(self)@, region, followed_now),
    {
        match region {
            Some(r) => {
                if r.is_empty() {
                    return false;
                }
                self.region = r;
            },
            None => return false,
        }
        match self.followed {
            Some((id, old_rect)) => {
                let new_rect = match followed_now {
                    Some(n) => n,
                    None => return false,
                };
                let dx = new_rect.x - old_rect.x;
                let dy = new_rect.y - old_rect.y;
                self.anchor = (self.anchor.0 + dx, self.anchor.1 + dy);
                self.head = (self.head.0 + dx, self.head.1 + dy);
                self.followed = Some((id, new_rect));
            },
            None => {},
        }
        true
    }

    /// First and last selected cells, in reading order, expanded to words or lines.
    fn span(&self, cells: &Cells) -> (span: ((i32, i32), (i32, i32)))
        requires
            self.wf(),
            cells@.area.fits(),
        ensures
            (span.0.0 as int, span.0.1 as int) == span_of(self@, cells@).0,
            (span.1.0 as int, span.1.1 as int) == span_of(self@, cells@).1,
    {
        let before = self.anchor.1 < self.head.1 || (self.anchor.1 == self.head.1 && self.anchor.0 <= self.head.0);
        let (mut start, mut end) = if before {
            (self.anchor, self.head)
        } else {
            (self.head, self.anchor)
        };
        let region = self.region;
        match self.unit {
            Unit::Cell => {},
            Unit::Line => {
                start.0 = region.x;
                end.0 = region.right() - 1;
            },
            Unit::Word => {
                let ghost first = start;
                let ghost last = end;
                if word_symbol(cells.symbol(start.0, start.1)) {
                    while start.0 > region.x && word_symbol(cells.symbol(start.0 - 1, start.1))
                        invariant
                            start.1 == first.1,
                            region == self@.region,
                            start.0 <= first.0,
                            word_start(cells@, region, first.0 as int, first.1 as int) == word_start(
                                cells@,
                                region,
                                start.0 as int,
                                start.1 as int,
                            ),
                        decreases start.0 - region.x,
                    {
                        start.0 = start.0 - 1;
                    }
                }
                if word_symbol(cells.symbol(end.0, end.1)) {
                    while end.0 < i32::MAX && (end.0 as i64) + 1 < region.right() as i64 && word_symbol(
                        cells.symbol(end.0 + 1, end.1),
                    )
                        invariant
                            end.1 == last.1,
                            region == self@.region,
                            usable(region),
                            end.0 >= last.0,
                            word_end(cells@, region, last.0 as int, last.1 as int) == word_end(
                                cells@,
                                region,
                                end.0 as int,
                                end.1 as int,
                            ),
                        decreases region.right_edge() - end.0,
                    {
                        end.0 = end.0 + 1;
                    }
                }
            },
        }
        (start, end)
    }

    /// The cells selected on row `y`, as a column range, clipped to the region.
    fn row_columns(&self, span: ((i32, i32), (i32, i32)), y: i32) -> (columns: Option<(i32, i32)>)
        requires
            self.wf(),
        ensures
            match columns {
                Some((from, to)) => columns_of(
                    self@.region,
                    ((span.0.0 as int, span.0.1 as int), (span.1.0 as int, span.1.1 as int)),
                    y as int,
                ) == Some((from as int, to as int)),
                None => columns_of(
                    self@.region,
                    ((span.0.0 as int, span.0.1 as int), (span.1.0 as int, span.1.1 as int)),
                    y as int,
                ) is None,
            },
    {
        let ((start_x, start_y), (end_x, end_y)) = span;
        let region = self.region;
        let right = region.right() - 1;
        if y < start_y || y > end_y || y < region.y || y >= region.bottom() {
            return None;
        }
        let from = if y == start_y { start_x } else { region.x };
        let to = if y == end_y { end_x } else { right };
        let from = if from < region.x { region.x } else { from };
        let to = if to > right { right } else { to };
        if from <= to {
            Some((from, to))
        } else {
            None
        }
    }
}

impl Selection {
    /// The selected text, rows joined with line breaks. A clean copy leaves out the cells inside
    /// `decorations`, rows made only of them (such as padding) and the white space that pads
    /// each row's end; a raw copy keeps every cell.
    pub fn text(&self, cells: &Cells, decorations: &Vec<Rect>, kind: CopyKind) -> (text: String)
        requires
            self.wf(),
            cells@.area.fits(),
        ensures
            text@ == copied_text(self@, cells@, decorations@, kind),
    {
        let span = self.span(cells);
        let ghost sp = ((span.0.0 as int, span.0.1 as int), (span.1.0 as int, span.1.1 as int));
        let ghost region = self@.region;
        let mut out = String::new();
        let mut any = false;
        let mut y: i64 = span.0.1 as i64;
        let last: i64 = span.1.1 as i64;
        while y <= last
            invariant
                sp == ((span.0.0 as int, span.0.1 as int), (span.1.0 as int, span.1.1 as int)),
                region == self@.region,
                self.wf(),
                last == sp.1.1,
                sp.0.1 <= y <= last + 1 || (y == sp.0.1 && last < sp.0.1),
                out@ == joined(lines_until(region, cells@, kind, decorations@, sp, y as int)),
                any == (lines_until(region, cells@, kind, decorations@, sp, y as int).len() > 0),
            decreases last + 1 - y,
        {
            let row = y as i32;
            let ghost before = lines_until(region, cells@, kind, decorations@, sp, y as int);
            match self.row_columns(span, row) {
                Some((from, to)) => {
                    let mut line: Vec<char> = Vec::new();
                    let mut copied = false;
                    let mut x: i64 = from as i64;
                    while x <= to as i64
                        invariant
                            from <= x <= to as int + 1,
                            line@ == row_text(cells@, kind, decorations@, from as int, x as int, row as int),
                            copied == row_copied(kind, decorations@, from as int, x as int, row as int),
                        decreases to as int + 1 - x,
                    {
                        let col = x as i32;
                        if kind == CopyKind::Raw || !covered(decorations, col, row) {
                            assert(kept(kind, decorations@, x as int, row as int));
                            copied = true;
                            extend_chars(&mut line, cells.symbol(col, row));
                        } else {
                            assert(!kept(kind, decorations@, x as int, row as int));
                            proof {
                                if copied {
                                    let w = choose|c: int| from <= c < x && #[trigger] kept(kind, decorations@, c, row as int);
                                    assert(from <= w < x + 1 && kept(kind, decorations@, w, row as int));
                                } else {
                                    assert forall|c: int| from <= c < x + 1 implies !#[trigger] kept(kind, decorations@, c, row as int) by {
                                        if c < x {
                                            assert(!(from <= c < x && kept(kind, decorations@, c, row as int)));
                                        }
                                    }
                                }
                            }
                        }
                        x = x + 1;
                    }
                    if copied {
                        let line = if kind == CopyKind::Clean {
                            without_trailing_white(&line)
                        } else {
                            line
                        };
                        assert(line_of(region, cells@, kind, decorations@, sp, y as int) == Some(line@));
                        let ghost now = before.push(line@);
                        assert(lines_until(region, cells@, kind, decorations@, sp, y + 1) =~= now);
                        assert(now.drop_last() =~= before);
                        if any {
                            push_char(&mut out, '\n');
                        }
                        append_chars(&mut out, &line);
                        proof {
                            if before.len() > 0 {
                                assert(out@ =~= joined(before) + seq!['\n'] + line@);
                            } else {
                                assert(out@ =~= line@);
                            }
                        }
                        any = true;
                    } else {
                        assert(line_of(region, cells@, kind, decorations@, sp, y as int) is None);
                        assert(lines_until(region, cells@, kind, decorations@, sp, y + 1) =~= before);
                    }
                },
                None => {
                    assert(lines_until(region, cells@, kind, decorations@, sp, y + 1) =~= before);
                },
            }
            y = y + 1;
        }
        out
    }

    /// Works out the selected cells row by row for painting, and keeps them for
    /// [`Selection::contains`]; none while nothing is selected.
    pub fn paint_rows(&mut self, cells: &Cells) -> (rows: Vec<Rect>)
        requires
            old(self).wf(),
            cells@.area.fits(),
        ensures
            final(self).wf(),
            rows@ == painted_rows(old(self)@, cells@),
            final(self)@ == (SelectionView { painted: rows@, ..old(self)@ }),
    {
        let mut rows: Vec<Rect> = Vec::new();
        if !self.visible {
            self.painted = Vec::new();
            return rows;
        }
        let span = self.span(cells);
        let ghost sp = ((span.0.0 as int, span.0.1 as int), (span.1.0 as int, span.1.1 as int));
        let ghost region = self@.region;
        let mut y: i64 = span.0.1 as i64;
        let last: i64 = span.1.1 as i64;
        while y <= last
            invariant
                sp == ((span.0.0 as int, span.0.1 as int), (span.1.0 as int, span.1.1 as int)),
                region == self@.region,
                self.wf(),
                last == sp.1.1,
                sp.0.1 <= y <= last + 1 || (y == sp.0.1 && last < sp.0.1),
                rows@ == rows_until(region, sp, y as int),
            decreases last + 1 - y,
        {
            let row = y as i32;
            match self.row_columns(span, row) {
                Some((from, to)) => {
                    let width = (to - from + 1) as u16;
                    rows.push(Rect { x: from, y: row, width, height: 1 });
                    assert(rows_until(region, sp, y + 1) =~= rows@);
                },
                None => {
                    assert(rows_until(region, sp, y + 1) =~= rows@);
                },
            }
            y = y + 1;
        }
        let kept = rows.clone();
        self.painted = kept;
        rows
    }

    /// Whether the selection flashes at `now`, within `flash` of a copy, and when it does, how
    /// long until its last frame of flashing.
    pub fn flash(&self, now: u64, flash: u64) -> (state: (bool, Option<u64>))
        requires
            self@.copied_at matches Some(at) ==> at + flash <= u64::MAX,
        ensures
            state.0 == (self@.copied_at matches Some(at) && now < at + flash),
            state.1 == (if state.0 { Some((self@.copied_at->0 + flash - now) as u64) } else { None::<u64> }),
    {
        match self.copied_at {
            Some(at) => {
                let until = at + flash;
                if now < until {
                    (true, Some(until - now))
                } else {
                    (false, None)
                }
            },
            None => (false, None),
        }
    }

    /// Marks the copy as done at `now`, for the flash.
    pub fn copied(&mut self, now: u64)
        ensures
            final(self)@ == (SelectionView { copy_pending: None, copied_at: Some(now), ..old(self)@ }),
            final(self).wf() == old(self).wf(),
    {
        self.copy_pending = None;
        self.copied_at = Some(now);
    }
}

proof fn lemma_word_start_left(cells: CellsView, region: Rect, x: int, y: int)
    ensures
        word_start(cells, region, x, y) <= x,
    decreases x - region.x,
{
    if x > region.x && is_word(symbol_at(cells, x - 1, y)) {
        lemma_word_start_left(cells, region, x - 1, y);
    }
}

proof fn lemma_word_end_right(cells: CellsView, region: Rect, x: int, y: int)
    ensures
        word_end(cells, region, x, y) >= x,
    decreases region.right_edge() - x,
{
    if x + 1 < region.right_edge() && is_word(symbol_at(cells, x + 1, y)) {
        lemma_word_end_right(cells, region, x + 1, y);
    }
}

/// A selection's first cell never comes after its last in reading order, whichever way it was
/// dragged and whatever it was expanded to.
pub proof fn lemma_the_span_reads_forward(s: SelectionView, cells: CellsView)
    requires
        usable(s.region),
    ensures
        ({
            let ((start_x, start_y), (end_x, end_y)) = span_of(s, cells);
            start_y < end_y || (start_y == end_y && start_x <= end_x)
        }),
{
    let (start, end) = if reading_le(s.anchor, s.head) {
        (s.anchor, s.head)
    } else {
        (s.head, s.anchor)
    };
    lemma_word_start_left(cells, s.region, start.0 as int, start.1 as int);
    lemma_word_end_right(cells, s.region, end.0 as int, end.1 as int);
}

/// Every row painted for a selection lies inside its region and holds at least one cell.
pub proof fn lemma_painted_rows_stay_in_the_region(region: Rect, span: ((int, int), (int, int)), y: int, k: int)
    requires
        usable(region),
        0 <= k < rows_until(region, span, y).len(),
    ensures
        ({
            let row = rows_until(region, span, y)[k];
            &&& row.height == 1
            &&& row.width >= 1
            &&& region.covers(row.x as int, row.y as int)
            &&& region.covers(row.right_edge() - 1, row.y as int)
        }),
    decreases y - span.0.1,
{
    if y > span.0.1 {
        let prev = rows_until(region, span, y - 1);
        if k < prev.len() {
            lemma_painted_rows_stay_in_the_region(region, span, y - 1, k);
        } else {
            let (from, to) = columns_of(region, span, y - 1)->0;
            assert(rows_until(region, span, y)[k] == Rect { x: from as i32, y: (y - 1) as i32, width: (to - from + 1) as u16, height: 1 });
        }
    }
}

/// A selection that follows a widget stays on the same text while the widget moves: anchor
/// and head keep their place relative to the widget.
pub proof fn lemma_a_followed_selection_stays_on_its_text(s: SelectionView, region: Option<Rect>, now: Option<Rect>)
    requires
        shift_fits(s, now),
        followed(s, region, now).1,
        s.followed is Some,
    ensures
        ({
            let (t, _) = followed(s, region, now);
            let old = (s.followed->0).1;
            let new = now->0;
            &&& t.followed == Some(((s.followed->0).0, new))
            &&& t.anchor.0 - new.x == s.anchor.0 - old.x
            &&& t.anchor.1 - new.y == s.anchor.1 - old.y
            &&& t.head.0 - new.x == s.head.0 - old.x
            &&& t.head.1 - new.y == s.head.1 - old.y
        }),
{
}

/// `v` dragged to the pointer at `x`, `y`, as [`Selection::drag_to`] does it.
pub open spec fn dragged(v: SelectionView, x: i32, y: i32) -> SelectionView {
    let head = (
        clamped(x as int, v.region.x as int, v.region.right_edge() - 1) as i32,
        clamped(y as int, v.region.y as int, v.region.bottom_edge() - 1) as i32,
    );
    SelectionView { head, visible: v.visible || head != v.anchor, ..v }
}

/// `v` after the pointer was dragged to each of `moves` in turn.
pub open spec fn drags(v: SelectionView, moves: Seq<(i32, i32)>) -> SelectionView
    decreases moves.len(),
{
    if moves.len() == 0 {
        v
    } else {
        dragged(drags(v, moves.drop_last()), moves.last().0, moves.last().1)
    }
}

/// Releasing after any number of drags keeps the selection exactly when something is selected:
/// when it was visible from the start (a double or triple press), or one of the drags put the
/// head, kept inside the region, on a cell other than the anchor. The anchor and the region never
/// move.
pub proof fn lemma_release_after_any_drags(v: SelectionView, moves: Seq<(i32, i32)>)
    ensures
        drags(v, moves).anchor == v.anchor,
        drags(v, moves).region == v.region,
        drags(v, moves).visible <==> (v.visible || exists|i: int|
            0 <= i < moves.len() && (#[trigger] drags(v, moves.take(i + 1))).head != v.anchor),
    decreases moves.len(),
{
    if moves.len() > 0 {
        let before = moves.drop_last();
        lemma_release_after_any_drags(v, before);
        assert(moves.take(moves.len() as int) =~= moves);
        assert forall|i: int| 0 <= i < before.len() implies #[trigger] before.take(i + 1) == moves.take(i + 1) by {
            assert(before.take(i + 1) =~= moves.take(i + 1));
        }
        if drags(v, moves).visible && !v.visible {
            if !drags(v, before).visible {
                let i = moves.len() - 1;
                assert(drags(v, moves.take(i + 1)).head != v.anchor);
            } else {
                let i = choose|i: int| 0 <= i < before.len() && (#[trigger] drags(v, before.take(i + 1))).head != v.anchor;
                assert(drags(v, moves.take(i + 1)) == drags(v, before.take(i + 1)));
            }
        }
        if exists|i: int| 0 <= i < moves.len() && (#[trigger] drags(v, moves.take(i + 1))).head != v.anchor {
            let i = choose|i: int| 0 <= i < moves.len() && (#[trigger] drags(v, moves.take(i + 1))).head != v.anchor;
            if i < before.len() {
                assert(drags(v, before.take(i + 1)) == drags(v, moves.take(i + 1)));
            }
        }
    }
}

/// What a word is made of: a cell belongs to a word exactly when its symbol is not empty and
/// each of its characters is a letter, a digit, or one of `_ - . / : @ ~ # % + =`, so that
/// identifiers with underscores, paths, addresses and signed numbers stay one word.
pub proof fn lemma_what_a_word_is_made_of(symbol: Seq<char>)
    ensures
        is_word(symbol) <==> symbol.len() > 0 && forall|i: int| 0 <= i < symbol.len() ==> {
            let c = #[trigger] symbol[i];
            alphanumeric(c) || c == '_' || c == '-' || c == '.' || c == '/' || c == ':' || c == '@' || c == '~'
                || c == '#' || c == '%' || c == '+' || c == '='
        },
{
}

/// A word found around a pressed cell runs to its true ends: every cell from where it starts up
/// to the pressed cell, and from there to where it ends, belongs to a word, and on each side the
/// word stops at the region's edge or at a cell that does not belong to one.
pub proof fn lemma_a_word_runs_to_its_ends(cells: CellsView, region: Rect, x: int, y: int)
    requires
        region.x <= x < region.right_edge(),
    ensures
        region.x <= word_start(cells, region, x, y) <= x,
        forall|k: int| word_start(cells, region, x, y) <= k < x ==> is_word(#[trigger] symbol_at(cells, k, y)),
        word_start(cells, region, x, y) > region.x ==> !is_word(symbol_at(cells, word_start(cells, region, x, y) - 1, y)),
        x <= word_end(cells, region, x, y) < region.right_edge(),
        forall|k: int| x < k <= word_end(cells, region, x, y) ==> is_word(#[trigger] symbol_at(cells, k, y)),
        word_end(cells, region, x, y) + 1 < region.right_edge() ==> !is_word(symbol_at(cells, word_end(cells, region, x, y) + 1, y)),
{
    lemma_word_start_runs(cells, region, x, y);
    lemma_word_end_runs(cells, region, x, y);
}

proof fn lemma_word_start_runs(cells: CellsView, region: Rect, x: int, y: int)
    requires
        region.x <= x,
    ensures
        region.x <= word_start(cells, region, x, y) <= x,
        forall|k: int| word_start(cells, region, x, y) <= k < x ==> is_word(#[trigger] symbol_at(cells, k, y)),
        word_start(cells, region, x, y) > region.x ==> !is_word(symbol_at(cells, word_start(cells, region, x, y) - 1, y)),
    decreases x - region.x,
{
    if x > region.x && is_word(symbol_at(cells, x - 1, y)) {
        lemma_word_start_runs(cells, region, x - 1, y);
    }
}

proof fn lemma_word_end_runs(cells: CellsView, region: Rect, x: int, y: int)
    requires
        x < region.right_edge(),
    ensures
        x <= word_end(cells, region, x, y) < region.right_edge(),
        forall|k: int| x < k <= word_end(cells, region, x, y) ==> is_word(#[trigger] symbol_at(cells, k, y)),
        word_end(cells, region, x, y) + 1 < region.right_edge() ==> !is_word(symbol_at(cells, word_end(cells, region, x, y) + 1, y)),
    decreases region.right_edge() - x,
{
    if x + 1 < region.right_edge() && is_word(symbol_at(cells, x + 1, y)) {
        lemma_word_end_runs(cells, region, x + 1, y);
    }
}

} // verus!
