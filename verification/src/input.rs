//! Where a press lands: what a painted frame tells about its widgets, the region a press nobody
//! used selects in, and the layers a press outside them closes.
//!
//! A frame is described by plain facts: the areas kept out of selection, the selection regions
//! in the order they were painted (the innermost last), the widgets a press can reach, each
//! widget's parent, the focusable widgets, where each widget was painted, and the open layers.

use vstd::prelude::*;

use crate::geometry::Rect;
use crate::selection::{Press, Selection, SelectionView, Unit, dragged, drags, lemma_release_after_any_drags, unit_of};

verus! {

/// What a painted frame tells about its widgets.
#[derive(Debug, Clone)]
pub struct FrameFacts {
    /// Areas kept out of selection.
    pub unselectable: Vec<Rect>,
    /// Selection regions and their widgets, in the order they were painted.
    pub selectable: Vec<(Rect, u64)>,
    /// The widgets a press can reach: none beneath a modal layer.
    pub reachable: Vec<u64>,
    /// Each widget with its parent: child, then parent.
    pub parents: Vec<(u64, u64)>,
    /// The widgets that take focus.
    pub focusable: Vec<u64>,
    /// Where each widget was painted.
    pub rects: Vec<(u64, Rect)>,
    /// The open layers, the lowest first: the layer's widget and whether it is modal.
    pub layers: Vec<(u64, bool)>,
    /// For each layer, the widget that opened it, if any.
    pub openers: Vec<(u64, Option<u64>)>,
}

/// The parent of `id`: its first entry in `parents`.
pub open spec fn parent_of(parents: Seq<(u64, u64)>, id: u64) -> Option<u64>
    decreases parents.len(),
{
    if parents.len() == 0 {
        None
    } else if parents[0].0 == id {
        Some(parents[0].1)
    } else {
        parent_of(parents.drop_first(), id)
    }
}

/// Whether `a` is `b` or lies inside it, climbing at most `n` parents.
pub open spec fn within_steps(parents: Seq<(u64, u64)>, a: u64, b: u64, n: nat) -> bool
    decreases n,
{
    a == b || (n > 0 && match parent_of(parents, a) {
        Some(p) => within_steps(parents, p, b, (n - 1) as nat),
        None => false,
    })
}

/// Whether widget `a` is `b` or lies inside it. A chain of parents holds each widget once, so
/// it is never longer than the list of parents.
pub open spec fn is_within(parents: Seq<(u64, u64)>, a: u64, b: u64) -> bool {
    within_steps(parents, a, b, parents.len())
}

/// Whether one of `rects` covers the cell at `at`.
pub open spec fn covered(rects: Seq<Rect>, at: (i32, i32)) -> bool {
    exists|i: int| 0 <= i < rects.len() && (#[trigger] rects[i]).covers(at.0 as int, at.1 as int)
}

/// Whether the region `entry` may own a press at `at` on widget `hit`: it lies under the press,
/// can be reached, and the widget hit lies inside it or it inside the widget hit.
pub open spec fn may_own(f: FrameFacts, entry: (Rect, u64), at: (i32, i32), hit: Option<u64>) -> bool {
    &&& entry.0.covers(at.0 as int, at.1 as int)
    &&& f.reachable@.contains(entry.1)
    &&& match hit {
        None => true,
        Some(target) => is_within(f.parents@, target, entry.1) || is_within(f.parents@, entry.1, target),
    }
}

/// The last region of `regions` that may own the press.
pub open spec fn owner_among(f: FrameFacts, regions: Seq<(Rect, u64)>, at: (i32, i32), hit: Option<u64>) -> Option<u64>
    decreases regions.len(),
{
    if regions.len() == 0 {
        None
    } else if may_own(f, regions.last(), at, hit) {
        Some(regions.last().1)
    } else {
        owner_among(f, regions.drop_last(), at, hit)
    }
}

/// The widget whose region a press at `at` on widget `hit` selects in: the innermost reachable
/// region under the press, the region painted last, that the widget hit lies in or inside.
pub open spec fn owner_of(f: FrameFacts, at: (i32, i32), hit: Option<u64>) -> Option<u64> {
    owner_among(f, f.selectable@, at, hit)
}

/// Where widget `id` was painted: its first entry.
pub open spec fn rect_in(rects: Seq<(u64, Rect)>, id: u64) -> Option<Rect>
    decreases rects.len(),
{
    if rects.len() == 0 {
        None
    } else if rects[0].0 == id {
        Some(rects[0].1)
    } else {
        rect_in(rects.drop_first(), id)
    }
}

/// The first child of `owner` among `parents` painted under `at`.
pub open spec fn child_under(parents: Seq<(u64, u64)>, rects: Seq<(u64, Rect)>, owner: u64, at: (i32, i32)) -> Option<u64>
    decreases parents.len(),
{
    if parents.len() == 0 {
        None
    } else if parents[0].1 == owner && (rect_in(rects, parents[0].0) matches Some(r) && r.covers(at.0 as int, at.1 as int)) {
        Some(parents[0].0)
    } else {
        child_under(parents.drop_first(), rects, owner, at)
    }
}

/// The child a focusable region, such as a scroll view, narrows to under the press.
pub open spec fn inner_of(f: FrameFacts, owner: u64, at: (i32, i32)) -> Option<u64> {
    if f.focusable@.contains(owner) {
        child_under(f.parents@, f.rects@, owner, at)
    } else {
        None
    }
}

/// The rectangle of the last region of `regions` that belongs to `owner`.
pub open spec fn region_rect(regions: Seq<(Rect, u64)>, owner: u64) -> Option<Rect>
    decreases regions.len(),
{
    if regions.len() == 0 {
        None
    } else if regions.last().1 == owner {
        Some(regions.last().0)
    } else {
        region_rect(regions.drop_last(), owner)
    }
}

/// The larger of two integers.
pub open spec fn larger(a: int, b: int) -> int {
    if a >= b { a } else { b }
}

/// The smaller of two integers.
pub open spec fn smaller(a: int, b: int) -> int {
    if a <= b { a } else { b }
}

/// The cells `a` and `b` share: empty, at the larger corner, when they share none.
pub open spec fn overlap(a: Rect, b: Rect) -> Rect {
    let x = larger(a.x as int, b.x as int);
    let y = larger(a.y as int, b.y as int);
    let right = smaller(a.right_edge(), b.right_edge());
    let bottom = smaller(a.bottom_edge(), b.bottom_edge());
    Rect {
        x: x as i32,
        y: y as i32,
        width: (if right > x { right - x } else { 0 }) as u16,
        height: (if bottom > y { bottom - y } else { 0 }) as u16,
    }
}

/// The area a selection of `owner` may cover: its region, narrowed to its child `inner`, when
/// it holds a cell.
pub open spec fn region_of(f: FrameFacts, owner: u64, inner: Option<u64>) -> Option<Rect> {
    match region_rect(f.selectable@, owner) {
        None => None,
        Some(rect) => {
            let region = match inner {
                Some(child) => match rect_in(f.rects@, child) {
                    Some(c) => overlap(rect, c),
                    None => rect,
                },
                None => rect,
            };
            if region.width == 0 || region.height == 0 {
                None
            } else {
                Some(region)
            }
        },
    }
}

/// The number of cells of `r`.
pub open spec fn area(r: Rect) -> int {
    r.width * r.height
}

/// Among the first `n` painted widgets, the smallest under `at` inside `owner`: the first of
/// the smallest.
pub open spec fn smallest_until(f: FrameFacts, owner: u64, at: (i32, i32), n: int) -> Option<(u64, Rect)>
    decreases n,
{
    if n <= 0 {
        None
    } else {
        let before = smallest_until(f, owner, at, n - 1);
        let e = f.rects@[n - 1];
        if !(e.1.covers(at.0 as int, at.1 as int) && is_within(f.parents@, e.0, owner)) {
            before
        } else {
            match before {
                None => Some(e),
                Some(b) => if area(e.1) < area(b.1) { Some(e) } else { before },
            }
        }
    }
}

/// The smallest widget under `at` inside `owner` and where it is: the selection moves with it.
pub open spec fn followed_of(f: FrameFacts, owner: u64, at: (i32, i32)) -> Option<(u64, Rect)> {
    smallest_until(f, owner, at, f.rects@.len() as int)
}

/// The selection a press nobody used starts: none in an area kept out, where no region may own
/// it, or where the region holds no cell.
pub open spec fn begun(f: FrameFacts, press: Press, hit: Option<u64>) -> Option<SelectionView> {
    if covered(f.unselectable@, press.at) {
        None
    } else {
        match owner_of(f, press.at, hit) {
            None => None,
            Some(owner) => {
                let inner = inner_of(f, owner, press.at);
                match region_of(f, owner, inner) {
                    None => None,
                    Some(region) => Some(
                        SelectionView {
                            region,
                            owner,
                            inner,
                            followed: followed_of(f, owner, press.at),
                            anchor: press.at,
                            head: press.at,
                            unit: unit_of(press.count),
                            dragging: true,
                            visible: unit_of(press.count) != Unit::Cell,
                            copy_pending: None,
                            copied_at: None,
                            painted: Seq::empty(),
                        },
                    ),
                }
            },
        }
    }
}

/// Whether every selection region's far edges are cells of the screen.
pub open spec fn regions_fit(f: FrameFacts) -> bool {
    forall|i: int| 0 <= i < f.selectable@.len() ==> (#[trigger] f.selectable@[i]).0.fits()
}

/// Whether `ids` holds `id`.
fn holds(ids: &Vec<u64>, id: u64) -> (found: bool)
    ensures
        found == ids@.contains(id),
{
    let mut i: usize = 0;
    while i < ids.len()
        invariant
            i <= ids@.len(),
            forall|j: int| 0 <= j < i ==> ids@[j] != id,
        decreases ids@.len() - i,
    {
        if ids[i] == id {
            assert(ids@[i as int] == id);
            return true;
        }
        i = i + 1;
    }
    false
}

/// The parent of `id`.
fn find_parent(parents: &Vec<(u64, u64)>, id: u64) -> (parent: Option<u64>)
    ensures
        parent == parent_of(parents@, id),
{
    let mut i: usize = 0;
    assert(parents@.skip(0) =~= parents@);
    while i < parents.len()
        invariant
            i <= parents@.len(),
            parent_of(parents@, id) == parent_of(parents@.skip(i as int), id),
        decreases parents@.len() - i,
    {
        assert(parents@.skip(i as int).drop_first() =~= parents@.skip(i + 1));
        assert(parents@.skip(i as int)[0] == parents@[i as int]);
        if parents[i].0 == id {
            return Some(parents[i].1);
        }
        i = i + 1;
    }
    None
}

/// Whether widget `a` is `b` or lies inside it.
pub fn within(parents: &Vec<(u64, u64)>, a: u64, b: u64) -> (inside: bool)
    ensures
        inside == is_within(parents@, a, b),
{
    let mut current = a;
    let mut left: usize = parents.len();
    while current != b
        invariant
            left <= parents@.len(),
            is_within(parents@, a, b) == within_steps(parents@, current, b, left as nat),
        decreases left,
    {
        if left == 0 {
            return false;
        }
        match find_parent(parents, current) {
            Some(p) => {
                current = p;
                left = left - 1;
            },
            None => return false,
        }
    }
    true
}

/// Whether one of `rects` covers the cell at `at`.
fn is_covered(rects: &Vec<Rect>, at: (i32, i32)) -> (found: bool)
    ensures
        found == covered(rects@, at),
{
    let mut i: usize = 0;
    while i < rects.len()
        invariant
            i <= rects@.len(),
            forall|j: int| 0 <= j < i ==> !(#[trigger] rects@[j]).covers(at.0 as int, at.1 as int),
        decreases rects@.len() - i,
    {
        if rects[i].contains(at.0, at.1) {
            return true;
        }
        i = i + 1;
    }
    false
}

/// Where widget `id` was painted.
pub fn find_rect(rects: &Vec<(u64, Rect)>, id: u64) -> (rect: Option<Rect>)
    ensures
        rect == rect_in(rects@, id),
{
    let mut i: usize = 0;
    assert(rects@.skip(0) =~= rects@);
    while i < rects.len()
        invariant
            i <= rects@.len(),
            rect_in(rects@, id) == rect_in(rects@.skip(i as int), id),
        decreases rects@.len() - i,
    {
        assert(rects@.skip(i as int).drop_first() =~= rects@.skip(i + 1));
        assert(rects@.skip(i as int)[0] == rects@[i as int]);
        if rects[i].0 == id {
            return Some(rects[i].1);
        }
        i = i + 1;
    }
    None
}

/// Whether the region `entry` may own a press at `at` on widget `hit`.
fn can_own(f: &FrameFacts, entry: (Rect, u64), at: (i32, i32), hit: Option<u64>) -> (may: bool)
    ensures
        may == may_own(*f, entry, at, hit),
{
    if !entry.0.contains(at.0, at.1) || !holds(&f.reachable, entry.1) {
        return false;
    }
    match hit {
        None => true,
        Some(target) => within(&f.parents, target, entry.1) || within(&f.parents, entry.1, target),
    }
}

/// The widget whose region a press at `at` on widget `hit` selects in.
pub fn find_owner(f: &FrameFacts, at: (i32, i32), hit: Option<u64>) -> (owner: Option<u64>)
    ensures
        owner == owner_of(*f, at, hit),
{
    let mut i: usize = f.selectable.len();
    assert(f.selectable@.take(i as int) =~= f.selectable@);
    while i > 0
        invariant
            i <= f.selectable@.len(),
            owner_of(*f, at, hit) == owner_among(*f, f.selectable@.take(i as int), at, hit),
        decreases i,
    {
        let ghost regions = f.selectable@.take(i as int);
        assert(regions.last() == f.selectable@[i - 1]);
        assert(regions.drop_last() =~= f.selectable@.take(i - 1));
        let entry = f.selectable[i - 1];
        if can_own(f, entry, at, hit) {
            return Some(entry.1);
        }
        i = i - 1;
    }
    None
}

/// The child a focusable region narrows to under the press.
pub fn find_inner(f: &FrameFacts, owner: u64, at: (i32, i32)) -> (inner: Option<u64>)
    ensures
        inner == inner_of(*f, owner, at),
{
    if !holds(&f.focusable, owner) {
        return None;
    }
    let mut i: usize = 0;
    assert(f.parents@.skip(0) =~= f.parents@);
    while i < f.parents.len()
        invariant
            i <= f.parents@.len(),
            f.focusable@.contains(owner),
            child_under(f.parents@, f.rects@, owner, at) == child_under(f.parents@.skip(i as int), f.rects@, owner, at),
        decreases f.parents@.len() - i,
    {
        assert(f.parents@.skip(i as int).drop_first() =~= f.parents@.skip(i + 1));
        assert(f.parents@.skip(i as int)[0] == f.parents@[i as int]);
        let (child, parent) = f.parents[i];
        assert(child == f.parents@[i as int].0 && parent == f.parents@[i as int].1);
        if parent == owner {
            match find_rect(&f.rects, child) {
                Some(r) => {
                    if r.contains(at.0, at.1) {
                        return Some(child);
                    }
                },
                None => {},
            }
        }
        i = i + 1;
    }
    None
}

/// The cells `a` and `b` share.
pub fn intersect(a: Rect, b: Rect) -> (shared: Rect)
    requires
        a.fits(),
    ensures
        shared == overlap(a, b),
        shared.fits(),
{
    let x: i64 = if a.x >= b.x { a.x as i64 } else { b.x as i64 };
    let y: i64 = if a.y >= b.y { a.y as i64 } else { b.y as i64 };
    let ar: i64 = a.x as i64 + a.width as i64;
    let br: i64 = b.x as i64 + b.width as i64;
    let ab: i64 = a.y as i64 + a.height as i64;
    let bb: i64 = b.y as i64 + b.height as i64;
    let right: i64 = if ar <= br { ar } else { br };
    let bottom: i64 = if ab <= bb { ab } else { bb };
    let width: u16 = if right > x { (right - x) as u16 } else { 0 };
    let height: u16 = if bottom > y { (bottom - y) as u16 } else { 0 };
    Rect { x: x as i32, y: y as i32, width, height }
}

/// The rectangle of the last region that belongs to `owner`.
fn find_region_rect(f: &FrameFacts, owner: u64) -> (rect: Option<Rect>)
    requires
        regions_fit(*f),
    ensures
        rect == region_rect(f.selectable@, owner),
        rect matches Some(r) ==> r.fits(),
{
    let mut i: usize = f.selectable.len();
    assert(f.selectable@.take(i as int) =~= f.selectable@);
    while i > 0
        invariant
            i <= f.selectable@.len(),
            regions_fit(*f),
            region_rect(f.selectable@, owner) == region_rect(f.selectable@.take(i as int), owner),
        decreases i,
    {
        let ghost regions = f.selectable@.take(i as int);
        assert(regions.last() == f.selectable@[i - 1]);
        assert(regions.drop_last() =~= f.selectable@.take(i - 1));
        if f.selectable[i - 1].1 == owner {
            assert(f.selectable@[i - 1].0.fits());
            return Some(f.selectable[i - 1].0);
        }
        i = i - 1;
    }
    assert(f.selectable@.take(0) =~= Seq::<(Rect, u64)>::empty());
    None
}

/// The area a selection of `owner` may cover: its region, narrowed to its child `inner`, when
/// it holds a cell.
pub fn region_in(f: &FrameFacts, owner: u64, inner: Option<u64>) -> (region: Option<Rect>)
    requires
        regions_fit(*f),
    ensures
        region == region_of(*f, owner, inner),
        region matches Some(r) ==> r.fits(),
{
    let found = find_region_rect(f, owner);
    let rect = match found {
        None => return None,
        Some(rect) => rect,
    };
    let region = match inner {
        Some(child) => match find_rect(&f.rects, child) {
            Some(c) => intersect(rect, c),
            None => rect,
        },
        None => rect,
    };
    if region.width == 0 || region.height == 0 {
        None
    } else {
        Some(region)
    }
}

/// The smallest widget under `at` inside `owner` and where it is.
pub fn find_followed(f: &FrameFacts, owner: u64, at: (i32, i32)) -> (followed: Option<(u64, Rect)>)
    ensures
        followed == followed_of(*f, owner, at),
{
    let mut best: Option<(u64, Rect)> = None;
    let mut i: usize = 0;
    while i < f.rects.len()
        invariant
            i <= f.rects@.len(),
            best == smallest_until(*f, owner, at, i as int),
        decreases f.rects@.len() - i,
    {
        let e = f.rects[i];
        if e.1.contains(at.0, at.1) && within(&f.parents, e.0, owner) {
            best = match best {
                None => Some(e),
                Some(b) => {
                    let (ew, eh, bw, bh) = (e.1.width as u32, e.1.height as u32, b.1.width as u32, b.1.height as u32);
                    assert(ew * eh <= 65535 * 65535) by (nonlinear_arith)
                        requires ew <= 65535, eh <= 65535;
                    assert(bw * bh <= 65535 * 65535) by (nonlinear_arith)
                        requires bw <= 65535, bh <= 65535;
                    let ea: u32 = ew * eh;
                    let ba: u32 = bw * bh;
                    if ea < ba {
                        Some(e)
                    } else {
                        Some(b)
                    }
                },
            };
        }
        i = i + 1;
    }
    best
}

impl Selection {
    /// Starts a selection for a press nobody used on widget `hit`, or `None` where selecting is
    /// not allowed: in an area kept out, where no reachable region lies under the press with
    /// the widget hit inside it or inside the widget hit, or where the region, narrowed to the
    /// focusable region's child under the press, holds no cell. The selection moves with the
    /// smallest widget under the press inside its region's widget.
    pub fn begin(frame: &FrameFacts, press: Press, hit: Option<u64>) -> (selection: Option<Selection>)
        requires
            regions_fit(*frame),
        ensures
            selection is None <==> begun(*frame, press, hit) is None,
            selection matches Some(s) ==> s.wf() && begun(*frame, press, hit) == Some(s@),
    {
        if is_covered(&frame.unselectable, press.at) {
            return None;
        }
        let owner = match find_owner(frame, press.at, hit) {
            None => return None,
            Some(owner) => owner,
        };
        let inner = find_inner(frame, owner, press.at);
        let region = match region_in(frame, owner, inner) {
            None => return None,
            Some(region) => region,
        };
        let followed = find_followed(frame, owner, press.at);
        Selection::start(region, owner, inner, followed, press)
    }
}

/// The first opener recorded for `layer`, if it has one.
pub open spec fn opener_of(openers: Seq<(u64, Option<u64>)>, layer: u64) -> Option<u64>
    decreases openers.len(),
{
    if openers.len() == 0 {
        None
    } else if openers[0].0 == layer {
        openers[0].1
    } else {
        opener_of(openers.drop_first(), layer)
    }
}

/// The layers of `layers` a press on widget `hit` lands outside of, the topmost first: every
/// layer from the top down to a modal one or to the one the press landed in.
pub open spec fn outside_of(parents: Seq<(u64, u64)>, layers: Seq<(u64, bool)>, hit: Option<u64>) -> Seq<u64>
    decreases layers.len(),
{
    if layers.len() == 0 {
        Seq::empty()
    } else {
        let top = layers.last();
        if !top.1 && (hit matches Some(t) ==> !is_within(parents, t, top.0)) {
            seq![top.0] + outside_of(parents, layers.drop_last(), hit)
        } else {
            Seq::empty()
        }
    }
}

/// Whether a press on `hit` landed on the widget that opened one of the layers `closed`.
pub open spec fn on_an_opener(f: FrameFacts, closed: Seq<u64>, hit: Option<u64>) -> bool {
    exists|i: int| 0 <= i < closed.len() && (opener_of(f.openers@, #[trigger] closed[i]) matches Some(op) && (hit
        matches Some(t) && is_within(f.parents@, t, op)))
}

/// The first opener recorded for `layer`.
fn find_opener(openers: &Vec<(u64, Option<u64>)>, layer: u64) -> (opener: Option<u64>)
    ensures
        opener == opener_of(openers@, layer),
{
    let mut i: usize = 0;
    assert(openers@.skip(0) =~= openers@);
    while i < openers.len()
        invariant
            i <= openers@.len(),
            opener_of(openers@, layer) == opener_of(openers@.skip(i as int), layer),
        decreases openers@.len() - i,
    {
        assert(openers@.skip(i as int).drop_first() =~= openers@.skip(i + 1));
        assert(openers@.skip(i as int)[0] == openers@[i as int]);
        if openers[i].0 == layer {
            return openers[i].1;
        }
        i = i + 1;
    }
    None
}

/// The layers a press on widget `hit` lands outside of, the topmost first, and whether it
/// landed on the widget that opened one of them: then it goes no further.
pub fn outside_layers(f: &FrameFacts, hit: Option<u64>) -> (outside: (Vec<u64>, bool))
    ensures
        outside.0@ == outside_of(f.parents@, f.layers@, hit),
        outside.1 == on_an_opener(*f, outside.0@, hit),
{
    let mut closed: Vec<u64> = Vec::new();
    let mut i: usize = f.layers.len();
    let mut done = false;
    assert(f.layers@.take(i as int) =~= f.layers@);
    while i > 0 && !done
        invariant
            i <= f.layers@.len(),
            outside_of(f.parents@, f.layers@, hit) == closed@ + outside_of(f.parents@, f.layers@.take(i as int), hit),
            done ==> outside_of(f.parents@, f.layers@.take(i as int), hit) == Seq::<u64>::empty(),
        decreases i + (if done { 0int } else { 1int }),
    {
        let ghost layers = f.layers@.take(i as int);
        assert(layers.last() == f.layers@[i - 1]);
        assert(layers.drop_last() =~= f.layers@.take(i - 1));
        let (layer, modal) = f.layers[i - 1];
        let inside = match hit {
            Some(t) => within(&f.parents, t, layer),
            None => false,
        };
        if modal || inside {
            done = true;
        } else {
            let ghost before = closed@;
            let ghost rest = outside_of(f.parents@, f.layers@.take(i - 1), hit);
            closed.push(layer);
            assert(closed@ + rest =~= before + (seq![layer] + rest));
            i = i - 1;
        }
    }
    assert(f.layers@.take(0) =~= Seq::<(u64, bool)>::empty());
    assert(closed@ + Seq::<u64>::empty() =~= closed@);
    let mut stop = false;
    let mut k: usize = 0;
    while k < closed.len()
        invariant
            k <= closed@.len(),
            closed@ == outside_of(f.parents@, f.layers@, hit),
            stop == exists|j: int| 0 <= j < k && (opener_of(f.openers@, #[trigger] closed@[j]) matches Some(op) && (hit
                matches Some(t) && is_within(f.parents@, t, op))),
        decreases closed@.len() - k,
    {
        let opened = match find_opener(&f.openers, closed[k]) {
            Some(op) => match hit {
                Some(t) => within(&f.parents, t, op),
                None => false,
            },
            None => false,
        };
        if opened {
            stop = true;
        }
        k = k + 1;
    }
    (closed, stop)
}

/// A mouse button.
#[derive(Debug, Clone, Copy, PartialEq, Eq, Structural)]
pub enum Button {
    Left,
    Right,
    Middle,
}

/// What the mouse did.
#[derive(Debug, Clone, Copy, PartialEq, Eq, Structural)]
pub enum MouseKind {
    Down(Button),
    Up(Button),
    Drag(Button),
    Moved,
    ScrollUp,
    ScrollDown,
}

/// A press handed to the widgets under it, waiting for their answer.
#[derive(Debug, Clone, Copy, PartialEq, Eq, Structural)]
pub struct PendingPress {
    pub x: i32,
    pub y: i32,
    pub time: u64,
    pub left: bool,
    pub hit: Option<u64>,
}

/// What reaches the pointer's routing.
#[derive(Debug, Clone, Copy, PartialEq, Eq, Structural)]
pub enum PointerInput {
    /// The mouse did `kind` at column `x`, row `y`, over widget `hit` (if any) and over a toast
    /// when `toast`, at `now` nanoseconds.
    Mouse { kind: MouseKind, x: i32, y: i32, hit: Option<u64>, toast: bool, now: u64 },
    /// Whether the widgets the pending press was handed to used it.
    PressUsed(bool),
}

/// What the pointer's routing keeps between inputs. The captures and the selection's menu are
/// the caller's to keep up to date before each step.
pub struct PointerState {
    /// The text selection, if any.
    pub selection: Option<Selection>,
    /// The selection's menu, while a selection is shown.
    pub menu: Option<u64>,
    /// The last press that started a selection, to count double and triple presses.
    pub last_press: Option<Press>,
    /// Whether the drags and the release of a press that went no further are dropped.
    pub swallow_release: bool,
    /// The widget holding the pointer.
    pub pointer_capture: Option<u64>,
    /// The widget holding the keys.
    pub key_capture: Option<u64>,
    /// A press the widgets are deciding on.
    pub pending: Option<PendingPress>,
}

/// What a [`PointerState`] holds.
pub struct PointerView {
    pub selection: Option<SelectionView>,
    pub menu: Option<u64>,
    pub last_press: Option<Press>,
    pub swallow_release: bool,
    pub pointer_capture: Option<u64>,
    pub key_capture: Option<u64>,
    pub pending: Option<PendingPress>,
}

/// The view of an optional selection.
pub open spec fn view_of(selection: Option<Selection>) -> Option<SelectionView> {
    match selection {
        Some(s) => Some(s@),
        None => None,
    }
}

impl View for PointerState {
    type V = PointerView;

    open spec fn view(&self) -> PointerView {
        PointerView {
            selection: view_of(self.selection),
            menu: self.menu,
            last_press: self.last_press,
            swallow_release: self.swallow_release,
            pointer_capture: self.pointer_capture,
            key_capture: self.key_capture,
            pending: self.pending,
        }
    }
}

/// Whether the selection held, if any, is well formed.
pub open spec fn selection_wf(selection: Option<Selection>) -> bool {
    selection matches Some(s) ==> s.wf()
}

/// What a press goes on to once the pointer left the key-capturing widget and the layers it
/// landed outside of were closed.
#[derive(Debug, Clone, Copy, PartialEq, Eq, Structural)]
pub enum PressNext {
    /// It landed on the widget that opened a closed layer: it goes no further.
    Stop,
    /// A right press on the selection opens its menu: hand the press to it.
    Menu(u64),
    /// Hand it to the widget hit and its ancestors, those that asked to see presses first, make
    /// the first focusable of them the focus, and tell whether they used it.
    Widgets(u64),
    /// Nothing more: no widget was hit.
    Done,
}

/// What to do for an input.
#[derive(Debug, PartialEq, Eq)]
pub enum PointerAction {
    /// Nothing more.
    Nothing,
    /// Hand a plain move to the widgets under this widget that asked for moves.
    Moves(u64),
    /// A press on a toast: tell `leave` and the layers `close` that the pointer is outside, then
    /// act on the toast.
    Toast { leave: Option<u64>, close: Vec<u64> },
    /// A press: tell `leave` and the layers `close` that the pointer is outside, then `next`.
    Press { leave: Option<u64>, close: Vec<u64>, next: PressNext },
    /// Hand the input to this widget alone.
    ToWidget(u64),
    /// Hand the input to this widget and its ancestors.
    ToAncestry(u64),
}

/// What a [`PointerAction`] holds.
pub enum PointerActionView {
    Nothing,
    Moves(u64),
    Toast { leave: Option<u64>, close: Seq<u64> },
    Press { leave: Option<u64>, close: Seq<u64>, next: PressNext },
    ToWidget(u64),
    ToAncestry(u64),
}

impl View for PointerAction {
    type V = PointerActionView;

    open spec fn view(&self) -> PointerActionView {
        match self {
            PointerAction::Nothing => PointerActionView::Nothing,
            PointerAction::Moves(t) => PointerActionView::Moves(*t),
            PointerAction::Toast { leave, close } => PointerActionView::Toast { leave: *leave, close: close@ },
            PointerAction::Press { leave, close, next } => PointerActionView::Press { leave: *leave, close: close@, next: *next },
            PointerAction::ToWidget(t) => PointerActionView::ToWidget(*t),
            PointerAction::ToAncestry(t) => PointerActionView::ToAncestry(*t),
        }
    }
}

/// The press at `at` at `time` after `last`, counted as [`Press::next`] counts it.
pub open spec fn next_press(last: Option<Press>, at: (i32, i32), time: u64) -> Press {
    Press {
        at,
        time,
        count: match last {
            Some(l) => if crate::selection::continues(l, at, time) { (l.count % 3 + 1) as u8 } else { 1u8 },
            None => 1u8,
        },
    }
}

/// Whether the cell at `x`, `y` is selected, as painted last.
pub open spec fn selected_at(v: SelectionView, x: i32, y: i32) -> bool {
    v.visible && exists|i: int| 0 <= i < v.painted.len() && (#[trigger] v.painted[i]).covers(x as int, y as int)
}

/// What a press nobody used starts: a selection, counted after the last press.
pub open spec fn selecting(s: PointerView, f: FrameFacts, at: (i32, i32), time: u64, hit: Option<u64>) -> PointerView {
    let press = next_press(s.last_press, at, time);
    PointerView { last_press: Some(press), selection: begun(f, press, hit), ..s }
}

/// A press of `button` at `x`, `y` on widget `hit` at `now`: a press off the selection's menu,
/// and other than a right press on the selection, clears the selection; the key-capturing
/// widget is left when another is hit; the layers the press lands outside of close, and a press
/// on the widget that opened one of them goes no further; a right press on the selection opens
/// its menu; a press on a widget goes to the widgets; a left press on no widget starts a
/// selection.
pub open spec fn press_step(s: PointerView, f: FrameFacts, button: Button, x: i32, y: i32, hit: Option<u64>, now: u64) -> (PointerView, PointerActionView) {
    let on_menu = hit matches Some(t) && (s.menu matches Some(m) && is_within(f.parents@, t, m));
    let on_selection = button == Button::Right && (s.selection matches Some(v) && selected_at(v, x, y));
    let kept = if !on_menu && !on_selection { PointerView { selection: None, ..s } } else { s };
    let leave = match s.key_capture {
        Some(o) => if hit != Some(o) { Some(o) } else { None },
        None => None,
    };
    let close = outside_of(f.parents@, f.layers@, hit);
    if on_an_opener(f, close, hit) {
        (PointerView { swallow_release: true, ..kept }, PointerActionView::Press { leave, close, next: PressNext::Stop })
    } else if on_selection && s.menu is Some {
        (kept, PointerActionView::Press { leave, close, next: PressNext::Menu(s.menu->0) })
    } else {
        match hit {
            Some(t) => (
                PointerView { pending: Some(PendingPress { x, y, time: now, left: button == Button::Left, hit }), ..kept },
                PointerActionView::Press { leave, close, next: PressNext::Widgets(t) },
            ),
            None => (
                if button == Button::Left { selecting(kept, f, (x, y), now, None) } else { kept },
                PointerActionView::Press { leave, close, next: PressNext::Done },
            ),
        }
    }
}

/// The next state and action of the pointer's routing after `input`, over the frame `f`.
pub open spec fn pointer_spec(s: PointerView, f: FrameFacts, input: PointerInput) -> (PointerView, PointerActionView) {
    match input {
        PointerInput::PressUsed(used) => match s.pending {
            None => (s, PointerActionView::Nothing),
            Some(p) => {
                let done = PointerView { pending: None, ..s };
                if !used && p.left {
                    (selecting(done, f, (p.x, p.y), p.time, p.hit), PointerActionView::Nothing)
                } else {
                    (done, PointerActionView::Nothing)
                }
            },
        },
        PointerInput::Mouse { kind, x, y, hit, toast, now } => match kind {
            MouseKind::Moved => (s, match hit {
                Some(t) => PointerActionView::Moves(t),
                None => PointerActionView::Nothing,
            }),
            MouseKind::Down(button) => if toast {
                (
                    PointerView { swallow_release: true, ..s },
                    PointerActionView::Toast { leave: s.key_capture, close: outside_of(f.parents@, f.layers@, None) },
                )
            } else {
                press_step(s, f, button, x, y, hit, now)
            },
            MouseKind::Drag(button) | MouseKind::Up(button) => {
                let up = kind is Up;
                if button == Button::Left && s.pointer_capture is None && (s.selection matches Some(v) && v.dragging) {
                    let v = s.selection->0;
                    let selection = if up {
                        if v.visible { Some(SelectionView { dragging: false, ..v }) } else { None }
                    } else {
                        Some(dragged(v, x, y))
                    };
                    (PointerView { selection, ..s }, PointerActionView::Nothing)
                } else if s.swallow_release {
                    (PointerView { swallow_release: !up, ..s }, PointerActionView::Nothing)
                } else {
                    let action = match s.pointer_capture {
                        Some(o) => PointerActionView::ToWidget(o),
                        None => match hit {
                            Some(t) => PointerActionView::ToAncestry(t),
                            None => PointerActionView::Nothing,
                        },
                    };
                    (PointerView { pointer_capture: if up { None } else { s.pointer_capture }, ..s }, action)
                }
            },
            MouseKind::ScrollUp | MouseKind::ScrollDown => (s, match hit {
                Some(t) => PointerActionView::ToAncestry(t),
                None => PointerActionView::Nothing,
            }),
        },
    }
}

/// The selection a press nobody used starts, counted after the last press.
fn select(last: Option<Press>, f: &FrameFacts, at: (i32, i32), time: u64, hit: Option<u64>) -> (started: (Press, Option<Selection>))
    requires
        regions_fit(*f),
    ensures
        started.0 == next_press(last, at, time),
        view_of(started.1) == begun(*f, started.0, hit),
        selection_wf(started.1),
{
    let press = Press::next(last, at, time);
    let selection = Selection::begin(f, press, hit);
    (press, selection)
}

/// A press of `button` at `x`, `y` on widget `hit` at `now`.
fn press(state: PointerState, f: &FrameFacts, button: Button, x: i32, y: i32, hit: Option<u64>, now: u64) -> (next: (PointerState, PointerAction))
    requires
        regions_fit(*f),
        selection_wf(state.selection),
    ensures
        (next.0@, next.1@) == press_step(state@, *f, button, x, y, hit, now),
        selection_wf(next.0.selection),
{
    let PointerState { selection, menu, last_press, swallow_release, pointer_capture, key_capture, pending } = state;
    let on_menu = match (hit, menu) {
        (Some(t), Some(m)) => within(&f.parents, t, m),
        _ => false,
    };
    let on_selection = button == Button::Right && match &selection {
        Some(sel) => sel.contains(x, y),
        None => false,
    };
    let selection = if !on_menu && !on_selection { None } else { selection };
    let leave = match key_capture {
        Some(o) => if hit != Some(o) { Some(o) } else { None },
        None => None,
    };
    let (close, stop) = outside_layers(f, hit);
    if stop {
        return (
            PointerState { selection, menu, last_press, swallow_release: true, pointer_capture, key_capture, pending },
            PointerAction::Press { leave, close, next: PressNext::Stop },
        );
    }
    if on_selection && menu.is_some() {
        let m = menu.unwrap();
        return (
            PointerState { selection, menu, last_press, swallow_release, pointer_capture, key_capture, pending },
            PointerAction::Press { leave, close, next: PressNext::Menu(m) },
        );
    }
    match hit {
        Some(t) => (
            PointerState {
                selection,
                menu,
                last_press,
                swallow_release,
                pointer_capture,
                key_capture,
                pending: Some(PendingPress { x, y, time: now, left: button == Button::Left, hit }),
            },
            PointerAction::Press { leave, close, next: PressNext::Widgets(t) },
        ),
        None => {
            if button == Button::Left {
                let (p, started) = select(last_press, f, (x, y), now, None);
                (
                    PointerState { selection: started, menu, last_press: Some(p), swallow_release, pointer_capture, key_capture, pending },
                    PointerAction::Press { leave, close, next: PressNext::Done },
                )
            } else {
                (
                    PointerState { selection, menu, last_press, swallow_release, pointer_capture, key_capture, pending },
                    PointerAction::Press { leave, close, next: PressNext::Done },
                )
            }
        },
    }
}

/// The next state and action of the pointer's routing after `input`, over the frame `f`:
/// moves reach only the widgets that asked; a press on a toast leaves everything else; a press
/// clears the selection unless it opens or uses the selection's menu, closes the layers it
/// lands outside of and reaches the widgets first; only a left press nobody used starts a
/// selection; drags and the release of the left button extend and end a selection being made;
/// the rest goes to the widget holding the pointer, else to the widget under it.
pub fn pointer_step(state: PointerState, frame: &FrameFacts, input: PointerInput) -> (next: (PointerState, PointerAction))
    requires
        regions_fit(*frame),
        selection_wf(state.selection),
    ensures
        (next.0@, next.1@) == pointer_spec(state@, *frame, input),
        selection_wf(next.0.selection),
{
    match input {
        PointerInput::PressUsed(used) => {
            let PointerState { selection, menu, last_press, swallow_release, pointer_capture, key_capture, pending } = state;
            match pending {
                None => (
                    PointerState { selection, menu, last_press, swallow_release, pointer_capture, key_capture, pending },
                    PointerAction::Nothing,
                ),
                Some(p) => {
                    if !used && p.left {
                        let (press, started) = select(last_press, frame, (p.x, p.y), p.time, p.hit);
                        (
                            PointerState { selection: started, menu, last_press: Some(press), swallow_release, pointer_capture, key_capture, pending: None },
                            PointerAction::Nothing,
                        )
                    } else {
                        (
                            PointerState { selection, menu, last_press, swallow_release, pointer_capture, key_capture, pending: None },
                            PointerAction::Nothing,
                        )
                    }
                },
            }
        },
        PointerInput::Mouse { kind, x, y, hit, toast, now } => match kind {
            MouseKind::Moved => {
                let action = match hit {
                    Some(t) => PointerAction::Moves(t),
                    None => PointerAction::Nothing,
                };
                (state, action)
            },
            MouseKind::Down(button) => {
                if toast {
                    let (close, _) = outside_layers(frame, None);
                    let leave = state.key_capture;
                    (PointerState { swallow_release: true, ..state }, PointerAction::Toast { leave, close })
                } else {
                    press(state, frame, button, x, y, hit, now)
                }
            },
            MouseKind::Drag(button) | MouseKind::Up(button) => {
                let up = match kind {
                    MouseKind::Up(_) => true,
                    _ => false,
                };
                let PointerState { selection, menu, last_press, swallow_release, pointer_capture, key_capture, pending } = state;
                let making = match &selection {
                    Some(sel) => sel.is_dragging(),
                    None => false,
                };
                if button == Button::Left && pointer_capture.is_none() && making {
                    let selection = match selection {
                        Some(mut sel) => {
                            if up {
                                if sel.release() {
                                    Some(sel)
                                } else {
                                    None
                                }
                            } else {
                                sel.drag_to(x, y);
                                Some(sel)
                            }
                        },
                        None => None,
                    };
                    (
                        PointerState { selection, menu, last_press, swallow_release, pointer_capture, key_capture, pending },
                        PointerAction::Nothing,
                    )
                } else if swallow_release {
                    (
                        PointerState { selection, menu, last_press, swallow_release: !up, pointer_capture, key_capture, pending },
                        PointerAction::Nothing,
                    )
                } else {
                    let action = match pointer_capture {
                        Some(o) => PointerAction::ToWidget(o),
                        None => match hit {
                            Some(t) => PointerAction::ToAncestry(t),
                            None => PointerAction::Nothing,
                        },
                    };
                    let capture = if up { None } else { pointer_capture };
                    (
                        PointerState { selection, menu, last_press, swallow_release, pointer_capture: capture, key_capture, pending },
                        action,
                    )
                }
            },
            MouseKind::ScrollUp | MouseKind::ScrollDown => {
                let action = match hit {
                    Some(t) => PointerAction::ToAncestry(t),
                    None => PointerAction::Nothing,
                };
                (state, action)
            },
        },
    }
}

/// A key held down repeats faster than this, in nanoseconds: Enter or Space again within it is
/// the same press held.
pub const HELD_KEY_WINDOW: u64 = 100_000_000;

/// What reaches the keyboard's routing.
#[derive(Debug, Clone, Copy, PartialEq, Eq, Structural)]
pub enum KeyInput {
    /// A key at `now` nanoseconds: `release` when let go, `repeat` when the terminal says it
    /// repeats; `activation` is the key when it is Enter or Space without modifiers; `copy`
    /// when the keymap makes it the global copy; `escape` when it is a plain Esc.
    Key { release: bool, repeat: bool, activation: Option<u32>, copy: bool, escape: bool, now: u64 },
    /// Whether the widgets the key was last handed to used it.
    Used(bool),
}

/// Where handling a key is.
#[derive(Debug, Clone, Copy, PartialEq, Eq, Structural)]
pub enum KeyPhase {
    /// No key is being handled.
    Idle,
    /// The key went to the keyboard's targets; `escape` when it is a plain Esc.
    Targets { escape: bool },
    /// The Esc went to the top layer.
    Layer,
    /// The key went to the widgets listening for it.
    Listeners,
}

/// What the keyboard's routing keeps between inputs. The captures, the focus, the top layer and
/// whether the selection's menu holds the keys are the caller's to keep up to date.
pub struct KeyState {
    /// The text selection, if any.
    pub selection: Option<Selection>,
    /// Whether the selection's menu is open and holds the keys.
    pub menu_open: bool,
    /// The last Enter or Space and when it came.
    pub last_activation: Option<(u32, u64)>,
    /// The widget holding the keys.
    pub key_capture: Option<u64>,
    /// The focused widget.
    pub focused: Option<u64>,
    /// The topmost open layer.
    pub top_layer: Option<u64>,
    /// Where handling the current key is.
    pub phase: KeyPhase,
}

/// What a [`KeyState`] holds.
pub struct KeyView {
    pub selection: Option<SelectionView>,
    pub menu_open: bool,
    pub last_activation: Option<(u32, u64)>,
    pub key_capture: Option<u64>,
    pub focused: Option<u64>,
    pub top_layer: Option<u64>,
    pub phase: KeyPhase,
}

impl View for KeyState {
    type V = KeyView;

    open spec fn view(&self) -> KeyView {
        KeyView {
            selection: view_of(self.selection),
            menu_open: self.menu_open,
            last_activation: self.last_activation,
            key_capture: self.key_capture,
            focused: self.focused,
            top_layer: self.top_layer,
            phase: self.phase,
        }
    }
}

/// What to do for a key.
#[derive(Debug, Clone, Copy, PartialEq, Eq, Structural)]
pub enum KeyAction {
    /// Nothing more.
    Nothing,
    /// Offer the key to the widgets listening for it, and tell whether one used it.
    Listeners,
    /// Hand the key to this widget and its ancestors, or to the top layer when `None`, and tell
    /// whether one used it.
    Targets(Option<u64>),
    /// Hand the Esc to this layer, and tell whether it used it.
    Layer(u64),
    /// Run the keymap's action for the key.
    RunAction,
}

/// The next state and action of the keyboard's routing after `input`: a release goes to the
/// listeners alone; while a selection is shown and its menu is closed, the copy key copies it
/// clean and any other key clears it; Enter or Space held down reaches only the listeners; a key
/// goes to the focused widget (or the one holding the keys), then, unless a widget holds the
/// keys, an Esc to the top layer, then to the listeners, and last to the keymap's action.
pub open spec fn key_spec(s: KeyView, input: KeyInput) -> (KeyView, KeyAction) {
    match input {
        KeyInput::Key { release, repeat, activation, copy, escape, now } => if release {
            (KeyView { phase: KeyPhase::Idle, ..s }, KeyAction::Listeners)
        } else if s.selection is Some && !s.menu_open && copy {
            let v = s.selection->0;
            (
                KeyView { selection: Some(SelectionView { copy_pending: Some(crate::selection::CopyKind::Clean), ..v }), phase: KeyPhase::Idle, ..s },
                KeyAction::Nothing,
            )
        } else {
            let cleared = if s.selection is Some && !s.menu_open { KeyView { selection: None, ..s } } else { s };
            match activation {
                Some(k) => {
                    let repeated = repeat || (s.last_activation matches Some(last) && last.0 == k && (if now >= last.1 {
                        now - last.1
                    } else {
                        0
                    }) < HELD_KEY_WINDOW);
                    let noted = KeyView { last_activation: Some((k, now)), ..cleared };
                    if repeated {
                        (KeyView { phase: KeyPhase::Idle, ..noted }, KeyAction::Listeners)
                    } else {
                        (KeyView { phase: KeyPhase::Targets { escape }, ..noted }, KeyAction::Targets(targets_of(s)))
                    }
                },
                None => (KeyView { phase: KeyPhase::Targets { escape }, ..cleared }, KeyAction::Targets(targets_of(s))),
            }
        },
        KeyInput::Used(used) => match s.phase {
            KeyPhase::Idle => (s, KeyAction::Nothing),
            KeyPhase::Targets { escape } => if used || s.key_capture is Some {
                (KeyView { phase: KeyPhase::Idle, ..s }, KeyAction::Nothing)
            } else if escape && s.top_layer is Some {
                (KeyView { phase: KeyPhase::Layer, ..s }, KeyAction::Layer(s.top_layer->0))
            } else {
                (KeyView { phase: KeyPhase::Listeners, ..s }, KeyAction::Listeners)
            },
            KeyPhase::Layer => if used {
                (KeyView { phase: KeyPhase::Idle, ..s }, KeyAction::Nothing)
            } else {
                (KeyView { phase: KeyPhase::Listeners, ..s }, KeyAction::Listeners)
            },
            KeyPhase::Listeners => (KeyView { phase: KeyPhase::Idle, ..s }, if used {
                KeyAction::Nothing
            } else {
                KeyAction::RunAction
            }),
        },
    }
}

/// The widget keys go to: the one holding the keys, else the focused one.
pub open spec fn targets_of(s: KeyView) -> Option<u64> {
    match s.key_capture {
        Some(c) => Some(c),
        None => s.focused,
    }
}

/// The next state and action of the keyboard's routing after `input`; see [`key_spec`].
pub fn key_step(state: KeyState, input: KeyInput) -> (next: (KeyState, KeyAction))
    ensures
        (next.0@, next.1) == key_spec(state@, input),
        selection_wf(state.selection) ==> selection_wf(next.0.selection),
        input == KeyInput::Used(true) ==> next.1 == KeyAction::Nothing && next.0.phase == KeyPhase::Idle,
{
    let KeyState { selection, menu_open, last_activation, key_capture, focused, top_layer, phase } = state;
    let targets = match key_capture {
        Some(c) => Some(c),
        None => focused,
    };
    match input {
        KeyInput::Key { release, repeat, activation, copy, escape, now } => {
            if release {
                return (
                    KeyState { selection, menu_open, last_activation, key_capture, focused, top_layer, phase: KeyPhase::Idle },
                    KeyAction::Listeners,
                );
            }
            let shown = selection.is_some() && !menu_open;
            if shown && copy {
                let selection = match selection {
                    Some(mut sel) => {
                        sel.request_copy(crate::selection::CopyKind::Clean);
                        Some(sel)
                    },
                    None => None,
                };
                return (
                    KeyState { selection, menu_open, last_activation, key_capture, focused, top_layer, phase: KeyPhase::Idle },
                    KeyAction::Nothing,
                );
            }
            let selection = if shown { None } else { selection };
            match activation {
                Some(k) => {
                    let repeated = repeat || match last_activation {
                        Some(last) => {
                            let waited = if now >= last.1 { now - last.1 } else { 0 };
                            last.0 == k && waited < HELD_KEY_WINDOW
                        },
                        None => false,
                    };
                    let last_activation = Some((k, now));
                    if repeated {
                        (
                            KeyState { selection, menu_open, last_activation, key_capture, focused, top_layer, phase: KeyPhase::Idle },
                            KeyAction::Listeners,
                        )
                    } else {
                        (
                            KeyState { selection, menu_open, last_activation, key_capture, focused, top_layer, phase: KeyPhase::Targets { escape } },
                            KeyAction::Targets(targets),
                        )
                    }
                },
                None => (
                    KeyState { selection, menu_open, last_activation, key_capture, focused, top_layer, phase: KeyPhase::Targets { escape } },
                    KeyAction::Targets(targets),
                ),
            }
        },
        KeyInput::Used(used) => {
            let (phase, action) = match phase {
                KeyPhase::Idle => (KeyPhase::Idle, KeyAction::Nothing),
                KeyPhase::Targets { escape } => {
                    if used || key_capture.is_some() {
                        (KeyPhase::Idle, KeyAction::Nothing)
                    } else if escape && top_layer.is_some() {
                        (KeyPhase::Layer, KeyAction::Layer(top_layer.unwrap()))
                    } else {
                        (KeyPhase::Listeners, KeyAction::Listeners)
                    }
                },
                KeyPhase::Layer => {
                    if used {
                        (KeyPhase::Idle, KeyAction::Nothing)
                    } else {
                        (KeyPhase::Listeners, KeyAction::Listeners)
                    }
                },
                KeyPhase::Listeners => (KeyPhase::Idle, if used {
                    KeyAction::Nothing
                } else {
                    KeyAction::RunAction
                }),
            };
            (KeyState { selection, menu_open, last_activation, key_capture, focused, top_layer, phase }, action)
        },
    }
}

/// A press goes to widgets first: a press on a widget starts no selection by itself; it waits
/// for the widgets' answer, and a press they used starts none and leaves the selection as it is.
pub proof fn lemma_a_press_goes_to_widgets_first(s: PointerView, f: FrameFacts, button: Button, x: i32, y: i32, t: u64, now: u64)
    ensures
        pointer_spec(s, f, PointerInput::Mouse { kind: MouseKind::Down(button), x, y, hit: Some(t), toast: false, now }).0.selection
            == s.selection || pointer_spec(
            s,
            f,
            PointerInput::Mouse { kind: MouseKind::Down(button), x, y, hit: Some(t), toast: false, now },
        ).0.selection is None,
        pointer_spec(s, f, PointerInput::PressUsed(true)).0.selection == s.selection,
        pointer_spec(s, f, PointerInput::PressUsed(true)).0.pending is None,
{
}

/// Only a left press nobody used starts a selection, and the selection it starts is the one
/// `begun` gives for it: in the innermost reachable region under it, outside areas kept out.
pub proof fn lemma_only_a_left_press_nobody_used_selects(s: PointerView, f: FrameFacts, input: PointerInput)
    requires
        s.selection is None,
    ensures
        pointer_spec(s, f, input).0.selection matches Some(v) ==> match input {
            PointerInput::Mouse { kind, x, y, hit, toast, now } => kind == MouseKind::Down(Button::Left) && !toast
                && hit is None && Some(v) == begun(f, next_press(s.last_press, (x, y), now), None),
            PointerInput::PressUsed(used) => !used && (s.pending matches Some(p) && p.left && Some(v) == begun(
                f,
                next_press(s.last_press, (p.x, p.y), p.time),
                p.hit,
            )),
        },
{
}

/// A press elsewhere clears the selection: any press off the selection's menu, other than a
/// right press on a selected cell, leaves no selection but the one a left press on no widget
/// starts.
pub proof fn lemma_a_press_elsewhere_clears_the_selection(
    s: PointerView,
    f: FrameFacts,
    button: Button,
    x: i32,
    y: i32,
    hit: Option<u64>,
    now: u64,
)
    requires
        !(hit matches Some(t) && (s.menu matches Some(m) && is_within(f.parents@, t, m))),
        !(button == Button::Right && (s.selection matches Some(v) && selected_at(v, x, y))),
    ensures
        ({
            let next = pointer_spec(s, f, PointerInput::Mouse { kind: MouseKind::Down(button), x, y, hit, toast: false, now }).0;
            next.selection is None || (button == Button::Left && hit is None && next.selection == begun(
                f,
                next_press(s.last_press, (x, y), now),
                None,
            ))
        }),
{
}

/// A double press selects a word and a triple press a line, at once; a single press selects
/// nothing until the pointer moves.
pub proof fn lemma_double_and_triple_presses_select_words_and_lines(f: FrameFacts, press: Press, hit: Option<u64>)
    ensures
        begun(f, press, hit) matches Some(v) ==> v.unit == unit_of(press.count) && v.visible == (press.count != 1)
            && (press.count == 2 ==> v.unit == Unit::Word) && (press.count == 3 ==> v.unit == Unit::Line),
{
}

/// While a selection is shown and its menu is closed, the copy key asks for a clean copy and
/// keeps the selection otherwise as it is, and any other key clears it.
pub proof fn lemma_the_copy_key_copies_clean_and_other_keys_clear(s: KeyView, input: KeyInput)
    requires
        s.selection is Some,
        !s.menu_open,
        input matches KeyInput::Key { release, .. } && !release,
    ensures
        (input matches KeyInput::Key { copy, .. } && copy) ==> key_spec(s, input).0.selection == Some(
            SelectionView { copy_pending: Some(crate::selection::CopyKind::Clean), ..s.selection->0 },
        ) && key_spec(s, input).1 == KeyAction::Nothing,
        (input matches KeyInput::Key { copy, .. } && !copy) ==> key_spec(s, input).0.selection is None,
{
}

/// A drag keeps the selection inside its region, wherever the pointer goes.
pub proof fn lemma_a_drag_keeps_the_head_in_the_region(v: SelectionView, x: i32, y: i32)
    requires
        crate::selection::usable(v.region),
    ensures
        dragged(v, x, y).region == v.region,
        dragged(v, x, y).region.covers(dragged(v, x, y).head.0 as int, dragged(v, x, y).head.1 as int),
{
}

/// Releasing keeps a selection exactly when something was selected: when the press was a double
/// or triple press, or one of the drags since it put the head, kept inside the region, on a cell
/// other than the one pressed.
pub proof fn lemma_release_keeps_what_a_drag_selected(f: FrameFacts, press: Press, hit: Option<u64>, moves: Seq<(i32, i32)>)
    ensures
        begun(f, press, hit) matches Some(v) ==> (drags(v, moves).visible <==> (press.count != 1 || exists|i: int|
            0 <= i < moves.len() && (#[trigger] drags(v, moves.take(i + 1))).head != press.at)),
        begun(f, press, hit) matches Some(v) ==> drags(v, moves).anchor == press.at && drags(v, moves).region
            == v.region,
{
    if let Some(v) = begun(f, press, hit) {
        lemma_release_after_any_drags(v, moves);
    }
}

/// A key a widget used goes no further: whichever stage the key is at (the keyboard's targets,
/// the top layer for an Esc, the listeners), once the widgets it reached say they used it, the
/// routing ends there, with nothing more to do: no layer, no listener and no keymap action after.
pub proof fn lemma_a_used_key_goes_no_further(s: KeyView)
    ensures
        key_spec(s, KeyInput::Used(true)).1 == KeyAction::Nothing,
        key_spec(s, KeyInput::Used(true)).0 == (KeyView { phase: KeyPhase::Idle, ..s }),
{
}

/// The layers a press closes are the open layers from the top down that it landed outside of:
/// the list holds the topmost layers in order, none of them modal and none holding the widget
/// hit, and it stops at the first layer that is modal or holds the widget hit.
pub proof fn lemma_a_press_closes_only_the_layers_it_missed(parents: Seq<(u64, u64)>, layers: Seq<(u64, bool)>, hit: Option<u64>)
    ensures
        ({
            let out = outside_of(parents, layers, hit);
            let n = layers.len() as int;
            &&& out.len() <= n
            &&& forall|i: int| 0 <= i < out.len() ==> #[trigger] out[i] == layers[n - 1 - i].0 && !layers[n - 1 - i].1
                && (hit matches Some(t) ==> !is_within(parents, t, out[i]))
            &&& out.len() < n ==> layers[n - 1 - out.len()].1 || (hit matches Some(t) && is_within(
                parents,
                t,
                layers[n - 1 - out.len()].0,
            ))
        }),
    decreases layers.len(),
{
    if layers.len() > 0 {
        let rest = layers.drop_last();
        lemma_a_press_closes_only_the_layers_it_missed(parents, rest, hit);
        let top = layers.last();
        let inner = outside_of(parents, rest, hit);
        if !top.1 && (hit matches Some(t) ==> !is_within(parents, t, top.0)) {
            let out = seq![top.0] + inner;
            assert forall|i: int| 0 <= i < out.len() implies #[trigger] out[i] == layers[layers.len() - 1 - i].0
                && !layers[layers.len() - 1 - i].1 && (hit matches Some(t) ==> !is_within(parents, t, out[i])) by {
                if i > 0 {
                    assert(out[i] == inner[i - 1]);
                    assert(rest[rest.len() - 1 - (i - 1)] == layers[layers.len() - 1 - i]);
                }
            }
            if out.len() < layers.len() {
                assert(rest[rest.len() - 1 - inner.len()] == layers[layers.len() - 1 - out.len()]);
            }
        }
    }
}

} // verus!
