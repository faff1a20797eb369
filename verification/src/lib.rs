//! The decisions of a terminal application runtime, with their contracts: how often frames are
//! drawn, how a child's output is cut into lines, what is written to the terminal for pictures,
//! and how the clipboard and the terminal's late answers are read.

mod frame_limit;
mod pacing;
pub mod geometry;
mod text;
pub mod lines;
mod outcomes;
mod child;
mod html;
pub mod base64;
pub mod decimal;
pub mod sixel;
pub mod sixel_frames;
pub mod kitty;
pub mod clipboard;
pub mod late_answer;
pub mod confirm;
pub mod pointer_shapes;
pub mod idle;
pub mod selection;
pub mod input;
pub mod focus;
pub mod launch;
pub mod detached;
pub mod present;

pub use frame_limit::{FrameLimit, LOCAL, REMOTE};
pub use pacing::Pacing;
pub use outcomes::{ChildLine, ClipboardEvent, HandoffOutcome, Line, OpenOutcome, ProcessOutcome};
pub use child::{InputClosed, TestChild};
pub use html::html_page;
