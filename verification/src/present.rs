//! What putting a frame on the terminal writes: nothing at all when the frame is the one already
//! shown.
//!
//! Over SSH each frame written is bytes on the wire even when no cell differs, so a frame equal
//! to the one on screen is not written. The pointer's shape travels with the frame but outside
//! the cells: OSC 22 is written only when the shape under the pointer changed, and only to a
//! terminal known to understand it. Pictures a kitty terminal draws itself travel after the
//! cells, only what changed about them. A frame that changed no cell, no shape and no picture
//! writes nothing.

use vstd::prelude::*;

use vstd::utf8::encode_utf8;

use crate::decimal::put;

verus! {

/// The name of the usual pointer shape, the one a terminal starts with.
pub const DEFAULT_SHAPE: &'static str = "default";

/// What writing a frame puts on the terminal, in this order inside one synchronized update when
/// `synchronized`: the cells, the pointer's shape, the pictures.
#[derive(Debug, Clone, Copy, PartialEq, Eq, Structural)]
pub struct FramePlan {
    pub synchronized: bool,
    pub cells: bool,
    pub shape: bool,
    pub pictures: bool,
}

/// What a frame writes when its cells are those shown (`same_cells`), its pointer shape must
/// be written (`reshape`), and it has picture commands (`pictures`); `None` when it writes
/// nothing.
pub open spec fn plan_of(same_cells: bool, reshape: bool, pictures: bool) -> Option<FramePlan> {
    if same_cells {
        if !reshape && !pictures {
            None
        } else if !pictures {
            Some(FramePlan { synchronized: false, cells: false, shape: true, pictures: false })
        } else {
            Some(FramePlan { synchronized: true, cells: false, shape: reshape, pictures: true })
        }
    } else {
        Some(FramePlan { synchronized: true, cells: true, shape: reshape, pictures: pictures })
    }
}

/// What a frame writes: the cells only when they differ from those shown, the pointer's shape
/// only when it changed, the pictures only when they have commands; nothing at all when none
/// of these. A shape alone needs no synchronized update.
pub fn frame_plan(same_cells: bool, reshape: bool, pictures: bool) -> (plan: Option<FramePlan>)
    ensures
        plan == plan_of(same_cells, reshape, pictures),
        plan is None <==> (same_cells && !reshape && !pictures),
{
    if same_cells {
        if !reshape && !pictures {
            None
        } else if !pictures {
            Some(FramePlan { synchronized: false, cells: false, shape: true, pictures: false })
        } else {
            Some(FramePlan { synchronized: true, cells: false, shape: reshape, pictures: true })
        }
    } else {
        Some(FramePlan { synchronized: true, cells: true, shape: reshape, pictures })
    }
}

/// The pointer's shape as the terminal shows it, and whether the terminal is told shapes at
/// all.
pub struct Pointer {
    on: bool,
    shown: String,
}

impl Pointer {
    /// Whether the terminal is told shapes.
    pub closed spec fn is_on(&self) -> bool {
        self.on
    }

    /// The shape the terminal shows.
    pub closed spec fn shown_view(&self) -> Seq<char> {
        self.shown@
    }

    /// A terminal showing its usual pointer, told shapes when `on`.
    pub fn new(on: bool) -> (pointer: Self)
        ensures
            pointer.is_on() == on,
            pointer.shown_view() == DEFAULT_SHAPE@,
    {
        Pointer { on, shown: DEFAULT_SHAPE.to_owned() }
    }

    /// Whether the frame asking for `wanted` writes it: only to a terminal told shapes, and only
    /// when it is not the one shown.
    pub fn reshape(&self, wanted: &str) -> (write: bool)
        ensures
            write == (self.is_on() && wanted@ != self.shown_view()),
    {
        let wanted = wanted.to_owned();
        self.on && !(wanted == self.shown)
    }

    /// Notes that `shape` was written and is the one shown now.
    pub fn written(&mut self, shape: &str)
        ensures
            final(self).is_on() == old(self).is_on(),
            final(self).shown_view() == shape@,
    {
        self.shown = shape.to_owned();
    }

    /// Whether the usual shape must be written back before the terminal is handed on or left: the
    /// terminal is told shapes and shows another one.
    pub fn needs_reset(&self) -> (reset: bool)
        ensures
            reset == (self.is_on() && self.shown_view() != DEFAULT_SHAPE@),
    {
        let usual = DEFAULT_SHAPE.to_owned();
        self.on && !(self.shown == usual)
    }
}

/// The OSC 22 sequence that sets the pointer's shape to `name`.
pub open spec fn shape_sequence(name: Seq<u8>) -> Seq<u8> {
    seq![27u8, 93u8, 50u8, 50u8, 59u8] + name + seq![27u8, 92u8]
}

/// Appends the OSC 22 sequence that sets the pointer's shape to `name`.
pub fn write_shape(out: &mut Vec<u8>, name: &str)
    ensures
        final(out)@ == old(out)@ + shape_sequence(encode_utf8(name@)),
{
    put(out, &[27u8, 93u8, 50u8, 50u8, 59u8]);
    put(out, name.as_bytes());
    put(out, &[27u8, 92u8]);
    assert(out@ =~= old(out)@ + shape_sequence(encode_utf8(name@)));
}

} // verus!
