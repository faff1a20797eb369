use qframe::present::{frame_plan, write_shape, FramePlan, Pointer};

/// A stand-in terminal: what it shows, and the bytes each frame writes, built from the
/// library's decisions as the runtime's screen builds them.
struct Wire {
    shown: Option<String>,
    pointer: Pointer,
}

const BEGIN: &[u8] = b"\x1b[?2026h";
const END: &[u8] = b"\x1b[?2026l";

impl Wire {
    fn new(shapes: bool) -> Self {
        Wire { shown: None, pointer: Pointer::new(shapes) }
    }

    /// What the frame showing `cells` with pointer `shape` writes.
    fn frame(&mut self, cells: &str, shape: &str) -> String {
        let same = self.shown.as_deref() == Some(cells);
        let reshape = self.pointer.reshape(shape);
        let Some(FramePlan { synchronized, cells: write_cells, shape: write_shape_now, pictures: _ }) = frame_plan(same, reshape, false) else {
            return String::new();
        };
        let mut out = Vec::new();
        if synchronized {
            out.extend_from_slice(BEGIN);
        }
        if write_cells {
            out.extend_from_slice(cells.as_bytes());
            self.shown = Some(cells.to_owned());
        }
        if write_shape_now {
            write_shape(&mut out, shape);
            self.pointer.written(shape);
        }
        if synchronized {
            out.extend_from_slice(END);
        }
        String::from_utf8(out).expect("text")
    }

    fn reset(&mut self) -> String {
        let mut out = Vec::new();
        if self.pointer.needs_reset() {
            write_shape(&mut out, "default");
            self.pointer.written("default");
        }
        String::from_utf8(out).expect("text")
    }
}

const OSC_22: &str = "\x1b]22;";

#[test]
fn a_frame_equal_to_the_one_shown_writes_nothing() {
    let mut wire = Wire::new(false);
    assert!(!wire.frame("12:04", "default").is_empty(), "the first frame is written");
    assert_eq!(wire.frame("12:04", "default"), "", "the same frame again is not a byte");
    assert!(!wire.frame("12:05", "default").is_empty(), "a changed cell is written");
    assert_eq!(wire.frame("12:05", "default"), "");
}

#[test]
fn the_pointer_shape_is_written_with_the_frame_only_when_it_changes() {
    let mut wire = Wire::new(true);
    let first = wire.frame("notes", "default");
    assert!(!first.contains(OSC_22), "the terminal starts with its usual pointer: {first:?}");
    assert_eq!(wire.frame("notes", "ew-resize"), "\x1b]22;ew-resize\x1b\\", "no cell changed, so the shape is all that is written");
    assert_eq!(wire.frame("notes", "ew-resize"), "", "the same shape again is not a byte");
    let cells = wire.frame("notes!", "ew-resize");
    assert!(!cells.is_empty() && !cells.contains(OSC_22), "a changed cell with the same shape: {cells:?}");
    let both = wire.frame("notes?", "nwse-resize");
    let (begin, end) = (both.find("\x1b[?2026h"), both.find("\x1b[?2026l"));
    let at = both.find("\x1b]22;nwse-resize\x1b\\");
    assert!(begin < at && at < end, "the shape goes inside the frame's synchronized update: {both:?}");
    assert_eq!(wire.frame("notes?", "default"), "\x1b]22;default\x1b\\", "and back to the usual pointer");
    assert_eq!(wire.frame("notes?", "default"), "");
}

#[test]
fn a_terminal_that_does_not_know_pointer_shapes_is_sent_none() {
    let mut wire = Wire::new(false);
    wire.frame("notes", "default");
    assert_eq!(wire.frame("notes", "ew-resize"), "");
    let cells = wire.frame("notes!", "ns-resize");
    assert!(!cells.is_empty() && !cells.contains(OSC_22), "{cells:?}");
    assert_eq!(wire.reset(), "", "nor is anything written to reset it");
}

#[test]
fn resetting_the_pointer_writes_the_usual_shape_once() {
    let mut wire = Wire::new(true);
    wire.frame("notes", "nesw-resize");
    assert_eq!(wire.reset(), "\x1b]22;default\x1b\\");
    assert_eq!(wire.reset(), "", "already the usual pointer: nothing more");
}

#[test]
fn pictures_alone_are_written_inside_a_synchronized_update() {
    assert_eq!(frame_plan(true, false, true), Some(FramePlan { synchronized: true, cells: false, shape: false, pictures: true }));
    assert_eq!(frame_plan(true, true, false), Some(FramePlan { synchronized: false, cells: false, shape: true, pictures: false }));
    assert_eq!(frame_plan(false, false, false), Some(FramePlan { synchronized: true, cells: true, shape: false, pictures: false }));
    assert_eq!(frame_plan(true, false, false), None);
}
