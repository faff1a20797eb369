//! How the programs the runtime starts end, and what they say: the answers an application's
//! messages carry.

use vstd::prelude::*;

verus! {

/// Where a line of a child's output came from. With a pseudo-terminal both streams share one
/// line, so only [`Line::Out`] appears.
#[derive(Debug, Clone, PartialEq, Eq)]
pub enum Line {
    /// A line the child wrote to its standard output.
    Out(String),
    /// A line the child wrote to its standard error.
    Error(String),
}

/// How a child whose output was read ended.
#[derive(Debug, Clone, PartialEq, Eq)]
pub enum ProcessOutcome {
    /// The child ran to its end; `code` is `None` when a signal ended it.
    Finished {
        /// The exit code, or `None` when a signal ended the child.
        code: Option<i32>,
    },
    /// Cancelling turned true, so the child was killed and its pending output dropped.
    Cancelled,
}

/// How a handoff of the terminal to a program ended.
#[derive(Debug, Clone, PartialEq, Eq)]
pub enum HandoffOutcome {
    /// The program ran; `code` is `None` when a signal ended it.
    Finished {
        /// The exit code, or `None` after a signal such as an interrupt.
        code: Option<i32>,
    },
    /// The program could not be started, or the terminal could not be restored.
    Failed(String),
}

/// What came of opening a file or an address with the desktop's program.
#[derive(Debug, Clone, PartialEq, Eq)]
pub enum OpenOutcome {
    /// The program was started with what it was given.
    Opened,
    /// The program could not be started at all.
    Failed(String),
}

/// Something that happened on the clipboard, delivered to the application.
#[derive(Debug, Clone, PartialEq, Eq)]
pub enum ClipboardEvent {
    /// A widget or a mouse selection copied this text.
    Copied(String),
    /// This text was pasted and no focused widget took it.
    Pasted(String),
}

/// What a program left running after a detached handoff says.
#[derive(Debug, Clone, PartialEq, Eq)]
pub enum ChildLine {
    /// One line the program wrote on its standard output after its first one, without the
    /// newline.
    Line(String),
    /// The program closed its standard output and ended. Nothing follows.
    Ended {
        /// The exit code, or `None` when a signal ended it.
        code: Option<i32>,
    },
}

/// A [`ChildLine`] as text.
pub enum ChildLineView {
    Line(Seq<char>),
    Ended(Option<i32>),
}

impl View for ChildLine {
    type V = ChildLineView;

    open spec fn view(&self) -> ChildLineView {
        match self {
            ChildLine::Line(text) => ChildLineView::Line(text@),
            ChildLine::Ended { code } => ChildLineView::Ended(*code),
        }
    }
}

/// The outcome of a read child from its exit: `code` is `None` when a signal ended it.
pub fn finished(code: Option<i32>) -> (outcome: ProcessOutcome)
    ensures
        outcome == (ProcessOutcome::Finished { code }),
{
    ProcessOutcome::Finished { code }
}

} // verus!
