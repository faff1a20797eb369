//! Handing the terminal to a program only until it is ready, and leaving it running.
//!
//! Some programs ask something on the terminal and then keep working in the background, such as
//! `pkexec` asking for a password and becoming a helper that serves the application through its
//! standard input and output. A detached handoff steps aside as a handoff does, but takes the
//! screen back as soon as the program writes its first line on its standard output, and leaves
//! it running. A program that ends before its first line finishes as a handoff's would.
//!
//! Here is the order of it: the caller starts the program, waits, gives the terminal's
//! foreground back and touches the screen, and reports what happened.

use vstd::prelude::*;

use crate::launch::{Handoff, HandoffRequest, HandoffView, Program, ProgramView, str_texts, text_of};

verus! {

/// Hands the terminal to a program until it writes its first line on standard output, then
/// takes the screen back and leaves the program running. Its standard input and output are
/// pipes to the application; only its standard error is the terminal.
pub struct DetachedHandoff {
    handoff: Handoff,
}

impl View for DetachedHandoff {
    type V = HandoffView;

    closed spec fn view(&self) -> HandoffView {
        self.handoff@
    }
}

impl DetachedHandoff {
    /// Hands the terminal to `program`, with no notice and no pause.
    pub fn new(program: &str) -> (h: Self)
        ensures
            h@ == (HandoffView {
                program: ProgramView { program: program@, args: Seq::empty(), dir: None, env: Seq::empty() },
                notice: None,
                pause: false,
            }),
    {
        DetachedHandoff { handoff: Handoff::new(program) }
    }

    /// Adds one argument.
    pub fn arg(self, arg: &str) -> (h: Self)
        ensures
            h@ == (HandoffView { program: ProgramView { args: self@.program.args.push(arg@), ..self@.program }, ..self@ }),
    {
        DetachedHandoff { handoff: self.handoff.arg(arg) }
    }

    /// Adds several arguments, in order.
    pub fn args(self, args: &[&str]) -> (h: Self)
        ensures
            h@ == (HandoffView {
                program: ProgramView { args: self@.program.args + str_texts(args@), ..self@.program },
                ..self@
            }),
    {
        DetachedHandoff { handoff: self.handoff.args(args) }
    }

    /// Runs the program in `dir`.
    pub fn dir(self, dir: &str) -> (h: Self)
        ensures
            h@ == (HandoffView { program: ProgramView { dir: Some(dir@), ..self@.program }, ..self@ }),
    {
        DetachedHandoff { handoff: self.handoff.dir(dir) }
    }

    /// Sets an environment variable for the program; the rest of the environment is inherited.
    pub fn env(self, key: &str, value: &str) -> (h: Self)
        ensures
            h@ == (HandoffView {
                program: ProgramView { env: self@.program.env.push((key@, value@)), ..self@.program },
                ..self@
            }),
    {
        DetachedHandoff { handoff: self.handoff.env(key, value) }
    }

    /// A line printed on the cleared screen before the program starts.
    pub fn notice(self, text: &str) -> (h: Self)
        ensures
            h@ == (HandoffView { notice: Some(text@), ..self@ }),
    {
        DetachedHandoff { handoff: self.handoff.notice(text) }
    }

    /// Waits for a key press when the program ends without a first line, so what it wrote on
    /// the terminal can be read. A program that detaches never waits for it.
    pub fn pause(self, pause: bool) -> (h: Self)
        ensures
            h@ == (HandoffView { pause: pause, ..self@ }),
    {
        DetachedHandoff { handoff: self.handoff.pause(pause) }
    }

    /// The program to run.
    pub fn program(&self) -> (program: &Program)
        ensures
            program@ == self@.program,
    {
        self.handoff.program()
    }

    /// The notice, if any.
    pub fn notice_text(&self) -> (notice: &Option<String>)
        ensures
            text_of(*notice) == self@.notice,
    {
        self.handoff.notice_text()
    }

    /// What a test sees of this handoff.
    pub fn request(&self) -> (request: HandoffRequest)
        ensures
            request.program@ == self@.program.program,
            crate::launch::texts(request.args@) == self@.program.args,
            text_of(request.notice) == self@.notice,
            request.pause == self@.pause,
    {
        self.handoff.request()
    }
}

/// How a detached handoff ended; `C` is the running program the caller keeps.
#[derive(Debug, Clone, PartialEq, Eq)]
pub enum DetachedOutcome<C> {
    /// The program wrote its first line and runs on in the background.
    Detached {
        /// The running program.
        child: C,
        /// Its first line, without the newline.
        first_line: String,
    },
    /// The program ended without a first line; `code` is `None` when a signal ended it.
    Finished {
        /// The exit code, or `None` after a signal such as an interrupt.
        code: Option<i32>,
    },
    /// The program could not be started, or the terminal could not be restored.
    Failed(String),
}

/// Where carrying out a detached handoff is.
#[derive(Debug, PartialEq, Eq)]
pub enum DetachedStage<C> {
    /// The screen is being released.
    Releasing,
    /// The program is being started with the terminal's foreground and pipes for its input
    /// and output.
    Starting,
    /// The program runs; its first line is awaited for a short while.
    Watching,
    /// The program ended; a line it wrote just before may still be on its way.
    LastWords,
    /// The program cannot be used, for this reason: it is being killed and waited for.
    Abandoning(String),
    /// The program said its first line: the terminal's foreground is being given back.
    GivingBack { child: C, first_line: String },
    /// The program said nothing: its input is being closed and its end awaited.
    Ending,
    /// The program ended with this exit code, or waiting for it failed for this reason: the
    /// terminal's foreground is being given back.
    GivingBackAfterEnd(Result<Option<i32>, String>),
    /// The program ended without a line; a key is awaited so what it wrote can be read.
    Pausing(DetachedOutcome<C>),
    /// The screen is being taken back. `released` tells whether it was released at all: when
    /// not, the outcome is the failure to release, whatever taking it back gives.
    Taking { outcome: DetachedOutcome<C>, released: bool },
    /// The handoff is over.
    Done,
}

/// What happened since the last step.
#[derive(Debug, PartialEq, Eq)]
pub enum DetachedEvent<C> {
    /// The screen was released.
    Released,
    /// The screen could not be released, for this reason.
    ReleaseFailed(String),
    /// The program started.
    Spawned,
    /// The program could not be started, for this reason.
    SpawnFailed(String),
    /// The program started but cannot be used, for this reason: its input or output could not
    /// be opened, or its output cannot be read.
    Unusable(String),
    /// The program wrote its first line; `child` is the program, kept running.
    Said { child: C, line: String },
    /// No line came, and none will: the output closed, or the program ended.
    Silent,
    /// No line yet, and the program still runs.
    StillRunning,
    /// No line yet, and the program ended.
    Ended,
    /// Asking whether the program ended failed, for this reason.
    CheckFailed(String),
    /// The program was killed and waited for.
    Abandoned,
    /// The program ended with this code (`None` after a signal), or waiting failed.
    Waited(Result<Option<i32>, String>),
    /// The terminal's foreground was given back to the application.
    GaveBack,
    /// The terminal's foreground could not be given back, for this reason.
    GiveBackFailed(String),
    /// The awaited key was pressed, or waiting for it failed.
    KeyPressed,
    /// The screen was taken back.
    Taken,
    /// The screen could not be taken back, for this reason.
    TakeFailed(String),
}

/// What to do next.
#[derive(Debug, PartialEq, Eq)]
pub enum DetachedAction<C> {
    /// Start the program with the terminal's foreground and pipes for its input and output.
    Spawn,
    /// Wait a short while for its first line; if none came, ask whether it ended.
    Watch,
    /// Wait a short while more for a line it wrote just before its end.
    Listen,
    /// Kill the program and wait for it.
    Abandon,
    /// Close the program's input and wait for its end.
    CloseAndWait,
    /// Give the terminal's foreground back to the application.
    GiveBack,
    /// Wait for one key press.
    WaitForKey,
    /// Take the screen back and draw everything again.
    Take,
    /// The handoff ended with this outcome: deliver its message.
    Finish(DetachedOutcome<C>),
    /// The event does not belong to this stage: nothing to do.
    Nothing,
}

/// The stage and action once the program's part ended with `outcome`: a key is awaited when the
/// handoff pauses and the program ended without a line, and the screen is taken back.
pub open spec fn program_done<C>(outcome: DetachedOutcome<C>, pause: bool) -> (DetachedStage<C>, DetachedAction<C>) {
    if pause && outcome is Finished {
        (DetachedStage::Pausing(outcome), DetachedAction::WaitForKey)
    } else {
        (DetachedStage::Taking { outcome: outcome, released: true }, DetachedAction::Take)
    }
}

/// The next stage and action of a detached handoff that pauses when `pause`, at `stage`, after
/// `event`.
pub open spec fn detached_step<C>(stage: DetachedStage<C>, event: DetachedEvent<C>, pause: bool) -> (DetachedStage<C>, DetachedAction<C>) {
    match (stage, event) {
        (DetachedStage::Releasing, DetachedEvent::Released) => (DetachedStage::Starting, DetachedAction::Spawn),
        (DetachedStage::Releasing, DetachedEvent::ReleaseFailed(error)) => (
            DetachedStage::Taking { outcome: DetachedOutcome::Failed(error), released: false },
            DetachedAction::Take,
        ),
        (DetachedStage::Starting, DetachedEvent::Spawned) => (DetachedStage::Watching, DetachedAction::Watch),
        (DetachedStage::Starting, DetachedEvent::SpawnFailed(error)) => program_done(DetachedOutcome::Failed(error), pause),
        (DetachedStage::Watching, DetachedEvent::Unusable(error)) => (DetachedStage::Abandoning(error), DetachedAction::Abandon),
        (DetachedStage::Watching, DetachedEvent::Said { child, line }) => (
            DetachedStage::GivingBack { child: child, first_line: line },
            DetachedAction::GiveBack,
        ),
        (DetachedStage::Watching, DetachedEvent::Silent) => (DetachedStage::Ending, DetachedAction::CloseAndWait),
        (DetachedStage::Watching, DetachedEvent::StillRunning) => (DetachedStage::Watching, DetachedAction::Watch),
        (DetachedStage::Watching, DetachedEvent::Ended) => (DetachedStage::LastWords, DetachedAction::Listen),
        (DetachedStage::Watching, DetachedEvent::CheckFailed(error)) => (DetachedStage::Abandoning(error), DetachedAction::Abandon),
        (DetachedStage::LastWords, DetachedEvent::Said { child, line }) => (
            DetachedStage::GivingBack { child: child, first_line: line },
            DetachedAction::GiveBack,
        ),
        (DetachedStage::LastWords, DetachedEvent::Silent) => (DetachedStage::Ending, DetachedAction::CloseAndWait),
        (DetachedStage::Abandoning(error), DetachedEvent::Abandoned) => program_done(DetachedOutcome::Failed(error), pause),
        (DetachedStage::GivingBack { child, first_line }, DetachedEvent::GaveBack) => program_done(
            DetachedOutcome::Detached { child: child, first_line: first_line },
            pause,
        ),
        (DetachedStage::GivingBack { child, first_line }, DetachedEvent::GiveBackFailed(error)) => program_done(
            DetachedOutcome::Failed(error),
            pause,
        ),
        (DetachedStage::Ending, DetachedEvent::Waited(status)) => (
            DetachedStage::GivingBackAfterEnd(status),
            DetachedAction::GiveBack,
        ),
        (DetachedStage::GivingBackAfterEnd(status), DetachedEvent::GaveBack) => program_done(
            match status {
                Ok(code) => DetachedOutcome::Finished { code: code },
                Err(error) => DetachedOutcome::Failed(error),
            },
            pause,
        ),
        (DetachedStage::GivingBackAfterEnd(status), DetachedEvent::GiveBackFailed(error)) => program_done(
            match status {
                Ok(_) => DetachedOutcome::Failed(error),
                Err(first) => DetachedOutcome::Failed(first),
            },
            pause,
        ),
        (DetachedStage::Pausing(outcome), DetachedEvent::KeyPressed) => (
            DetachedStage::Taking { outcome: outcome, released: true },
            DetachedAction::Take,
        ),
        (DetachedStage::Taking { outcome, released }, DetachedEvent::Taken) => (
            DetachedStage::Done,
            DetachedAction::Finish(outcome),
        ),
        (DetachedStage::Taking { outcome, released }, DetachedEvent::TakeFailed(error)) => (
            DetachedStage::Done,
            DetachedAction::Finish(if released { DetachedOutcome::Failed(error) } else { outcome }),
        ),
        (stage, _) => (stage, DetachedAction::Nothing),
    }
}

/// The first stage of a detached handoff: the screen is released, with the notice printed on it.
pub fn detached_begins<C>() -> (stage: DetachedStage<C>)
    ensures
        stage == DetachedStage::<C>::Releasing,
        well_formed(stage),
{
    DetachedStage::Releasing
}

/// The stage and action once the program's part ended with `outcome`.
fn finish_program<C>(outcome: DetachedOutcome<C>, pause: bool) -> (next: (DetachedStage<C>, DetachedAction<C>))
    ensures
        next == program_done(outcome, pause),
{
    let finished = match &outcome {
        DetachedOutcome::Finished { .. } => true,
        _ => false,
    };
    if pause && finished {
        (DetachedStage::Pausing(outcome), DetachedAction::WaitForKey)
    } else {
        (DetachedStage::Taking { outcome, released: true }, DetachedAction::Take)
    }
}

/// The next stage and action of a detached handoff that pauses when `pause`, at `stage`, after
/// `event`: the program starts only once the screen is released; a first line gives the
/// terminal's foreground back and the program runs on; a program that ends without one is
/// waited for and finishes as a handoff's would; one that cannot be used is killed; the screen
/// is taken back however it went, and the outcome is delivered only then.
pub fn detached_next<C>(stage: DetachedStage<C>, event: DetachedEvent<C>, pause: bool) -> (next: (DetachedStage<C>, DetachedAction<C>))
    ensures
        next == detached_step(stage, event, pause),
{
    match (stage, event) {
        (DetachedStage::Releasing, DetachedEvent::Released) => (DetachedStage::Starting, DetachedAction::Spawn),
        (DetachedStage::Releasing, DetachedEvent::ReleaseFailed(error)) => (
            DetachedStage::Taking { outcome: DetachedOutcome::Failed(error), released: false },
            DetachedAction::Take,
        ),
        (DetachedStage::Starting, DetachedEvent::Spawned) => (DetachedStage::Watching, DetachedAction::Watch),
        (DetachedStage::Starting, DetachedEvent::SpawnFailed(error)) => finish_program(DetachedOutcome::Failed(error), pause),
        (DetachedStage::Watching, DetachedEvent::Unusable(error)) => (DetachedStage::Abandoning(error), DetachedAction::Abandon),
        (DetachedStage::Watching, DetachedEvent::Said { child, line }) => (
            DetachedStage::GivingBack { child, first_line: line },
            DetachedAction::GiveBack,
        ),
        (DetachedStage::Watching, DetachedEvent::Silent) => (DetachedStage::Ending, DetachedAction::CloseAndWait),
        (DetachedStage::Watching, DetachedEvent::StillRunning) => (DetachedStage::Watching, DetachedAction::Watch),
        (DetachedStage::Watching, DetachedEvent::Ended) => (DetachedStage::LastWords, DetachedAction::Listen),
        (DetachedStage::Watching, DetachedEvent::CheckFailed(error)) => (DetachedStage::Abandoning(error), DetachedAction::Abandon),
        (DetachedStage::LastWords, DetachedEvent::Said { child, line }) => (
            DetachedStage::GivingBack { child, first_line: line },
            DetachedAction::GiveBack,
        ),
        (DetachedStage::LastWords, DetachedEvent::Silent) => (DetachedStage::Ending, DetachedAction::CloseAndWait),
        (DetachedStage::Abandoning(error), DetachedEvent::Abandoned) => finish_program(DetachedOutcome::Failed(error), pause),
        (DetachedStage::GivingBack { child, first_line }, DetachedEvent::GaveBack) => finish_program(
            DetachedOutcome::Detached { child, first_line },
            pause,
        ),
        (DetachedStage::GivingBack { child: _, first_line: _ }, DetachedEvent::GiveBackFailed(error)) => finish_program(
            DetachedOutcome::Failed(error),
            pause,
        ),
        (DetachedStage::Ending, DetachedEvent::Waited(status)) => (
            DetachedStage::GivingBackAfterEnd(status),
            DetachedAction::GiveBack,
        ),
        (DetachedStage::GivingBackAfterEnd(status), DetachedEvent::GaveBack) => {
            let outcome = match status {
                Ok(code) => DetachedOutcome::Finished { code },
                Err(error) => DetachedOutcome::Failed(error),
            };
            finish_program(outcome, pause)
        },
        (DetachedStage::GivingBackAfterEnd(status), DetachedEvent::GiveBackFailed(error)) => {
            let outcome = match status {
                Ok(_) => DetachedOutcome::Failed(error),
                Err(first) => DetachedOutcome::Failed(first),
            };
            finish_program(outcome, pause)
        },
        (DetachedStage::Pausing(outcome), DetachedEvent::KeyPressed) => (
            DetachedStage::Taking { outcome, released: true },
            DetachedAction::Take,
        ),
        (DetachedStage::Taking { outcome, released: _ }, DetachedEvent::Taken) => (
            DetachedStage::Done,
            DetachedAction::Finish(outcome),
        ),
        (DetachedStage::Taking { outcome, released }, DetachedEvent::TakeFailed(error)) => {
            let delivered = if released {
                DetachedOutcome::Failed(error)
            } else {
                outcome
            };
            (DetachedStage::Done, DetachedAction::Finish(delivered))
        },
        (stage, _) => (stage, DetachedAction::Nothing),
    }
}

/// Whether `stage` can be reached: a handoff pauses only after a program that ended without
/// a line.
pub open spec fn well_formed<C>(stage: DetachedStage<C>) -> bool {
    stage matches DetachedStage::Pausing(outcome) ==> outcome is Finished
}

/// The order of a detached handoff holds at every step: the program is started only right after
/// the screen was released; the outcome is delivered only right after the screen was taken
/// back; a key is awaited only when the handoff pauses, and never after a program that
/// detached; the screen is taken back for a detached program only right after the terminal's
/// foreground was given back, with the first line it said.
pub proof fn lemma_a_detached_program_has_given_the_terminal_back<C>(stage: DetachedStage<C>, event: DetachedEvent<C>, pause: bool)
    requires
        well_formed(stage),
    ensures
        well_formed(detached_step(stage, event, pause).0),
        detached_step(stage, event, pause).1 == DetachedAction::<C>::Spawn ==> stage == DetachedStage::<C>::Releasing
            && event == DetachedEvent::<C>::Released,
        detached_step(stage, event, pause).1 is Finish ==> stage is Taking && (event is Taken || event is TakeFailed)
            && detached_step(stage, event, pause).0 == DetachedStage::<C>::Done,
        detached_step(stage, event, pause).1 == DetachedAction::<C>::WaitForKey ==> pause
            && detached_step(stage, event, pause).0 matches DetachedStage::Pausing(DetachedOutcome::Finished { .. }),
        detached_step(stage, event, pause).0 matches DetachedStage::Taking {
            outcome: DetachedOutcome::Detached { child, first_line },
            ..
        } ==> (detached_step(stage, event, pause).1 == DetachedAction::<C>::Take ==> stage == (DetachedStage::GivingBack {
            child: child,
            first_line: first_line,
        }) && event == DetachedEvent::<C>::GaveBack),
{
}

/// A program that said nothing and ended with `code` finishes as a handoff's would: once the
/// foreground is back, with its code, and the screen is taken back (after a key, when the
/// handoff pauses).
pub proof fn lemma_a_silent_program_finishes_with_its_code<C>(code: Option<i32>, pause: bool)
    ensures
        detached_step(DetachedStage::<C>::Ending, DetachedEvent::Waited(Ok(code)), pause) == (
            DetachedStage::<C>::GivingBackAfterEnd(Ok(code)),
            DetachedAction::<C>::GiveBack,
        ),
        detached_step(DetachedStage::<C>::GivingBackAfterEnd(Ok(code)), DetachedEvent::GaveBack, pause) == program_done(
            DetachedOutcome::<C>::Finished { code: code },
            pause,
        ),
{
}

} // verus!
