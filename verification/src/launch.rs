//! The programs an application starts: a child whose output is read, a program handed the
//! terminal for a while, and one opened beside the application; and the order in which a
//! handoff releases the screen, runs the program and takes the screen back.
//!
//! Everything here is described by plain values; starting the programs and touching the terminal
//! is left to the caller, which reports back what happened.

use vstd::prelude::*;

use crate::outcomes::HandoffOutcome;

verus! {

/// The texts of `strings`.
pub open spec fn texts(strings: Seq<String>) -> Seq<Seq<char>> {
    strings.map_values(|s: String| s@)
}

/// The texts of `strs`.
pub open spec fn str_texts(strs: Seq<&str>) -> Seq<Seq<char>> {
    strs.map_values(|s: &str| s@)
}

/// The texts of the pairs of `pairs`.
pub open spec fn pair_texts(pairs: Seq<(String, String)>) -> Seq<(Seq<char>, Seq<char>)> {
    pairs.map_values(|p: (String, String)| (p.0@, p.1@))
}

/// The text of an optional string.
pub open spec fn text_of(text: Option<String>) -> Option<Seq<char>> {
    match text {
        Some(t) => Some(t@),
        None => None,
    }
}

/// A program to start: its name, its arguments in order, the folder it starts in (`None`: the
/// application's own) and the environment variables set for it, the rest being inherited.
pub struct Program {
    pub program: String,
    pub args: Vec<String>,
    pub dir: Option<String>,
    pub env: Vec<(String, String)>,
}

/// What a [`Program`] holds, as text.
pub struct ProgramView {
    pub program: Seq<char>,
    pub args: Seq<Seq<char>>,
    pub dir: Option<Seq<char>>,
    pub env: Seq<(Seq<char>, Seq<char>)>,
}

impl View for Program {
    type V = ProgramView;

    open spec fn view(&self) -> ProgramView {
        ProgramView {
            program: self.program@,
            args: texts(self.args@),
            dir: text_of(self.dir),
            env: pair_texts(self.env@),
        }
    }
}

impl Program {
    /// `program`, with no arguments, in the application's folder and environment.
    pub fn new(program: &str) -> (p: Self)
        ensures
            p@ == (ProgramView { program: program@, args: Seq::empty(), dir: None, env: Seq::empty() }),
    {
        let p = Program { program: program.to_owned(), args: Vec::new(), dir: None, env: Vec::new() };
        assert(p@.args =~= Seq::<Seq<char>>::empty());
        assert(p@.env =~= Seq::<(Seq<char>, Seq<char>)>::empty());
        p
    }

    /// Adds one argument.
    pub fn arg(&mut self, arg: &str)
        ensures
            final(self)@ == (ProgramView { args: old(self)@.args.push(arg@), ..old(self)@ }),
    {
        self.args.push(arg.to_owned());
        assert(texts(self.args@) =~= old(self)@.args.push(arg@));
    }

    /// Adds several arguments, in order.
    pub fn add_args(&mut self, args: &[&str])
        ensures
            final(self)@ == (ProgramView { args: old(self)@.args + str_texts(args@), ..old(self)@ }),
    {
        let mut i: usize = 0;
        while i < args.len()
            invariant
                i <= args@.len(),
                self@ == (ProgramView { args: old(self)@.args + str_texts(args@.take(i as int)), ..old(self)@ }),
            decreases args@.len() - i,
        {
            self.arg(args[i]);
            assert(str_texts(args@.take(i + 1)) =~= str_texts(args@.take(i as int)).push(args@[i as int]@));
            assert(old(self)@.args + str_texts(args@.take(i + 1)) =~= (old(self)@.args + str_texts(
                args@.take(i as int),
            )).push(args@[i as int]@));
            i = i + 1;
        }
        assert(args@.take(i as int) =~= args@);
    }

    /// Starts the program in `dir`.
    pub fn set_dir(&mut self, dir: &str)
        ensures
            final(self)@ == (ProgramView { dir: Some(dir@), ..old(self)@ }),
    {
        self.dir = Some(dir.to_owned());
    }

    /// Sets one environment variable.
    pub fn set_env(&mut self, key: &str, value: &str)
        ensures
            final(self)@ == (ProgramView { env: old(self)@.env.push((key@, value@)), ..old(self)@ }),
    {
        self.env.push((key.to_owned(), value.to_owned()));
        assert(pair_texts(self.env@) =~= old(self)@.env.push((key@, value@)));
    }
}

/// A child process whose output is read line by line, for showing in a log view: with pipes,
/// or on a pseudo-terminal of a given size; with the application's standard input, or none.
pub struct Process {
    program: Program,
    pty: Option<(u16, u16)>,
    no_stdin: bool,
}

/// What a [`Process`] holds.
pub struct ProcessView {
    pub program: ProgramView,
    pub pty: Option<(u16, u16)>,
    pub no_stdin: bool,
}

impl View for Process {
    type V = ProcessView;

    closed spec fn view(&self) -> ProcessView {
        ProcessView { program: self.program@, pty: self.pty, no_stdin: self.no_stdin }
    }
}

impl Process {
    /// A child process that runs `program`, with pipes and the application's own environment.
    pub fn new(program: &str) -> (p: Self)
        ensures
            p@ == (ProcessView {
                program: ProgramView { program: program@, args: Seq::empty(), dir: None, env: Seq::empty() },
                pty: None,
                no_stdin: false,
            }),
    {
        Process { program: Program::new(program), pty: None, no_stdin: false }
    }

    /// Adds one argument.
    pub fn arg(self, arg: &str) -> (p: Self)
        ensures
            p@ == (ProcessView { program: ProgramView { args: self@.program.args.push(arg@), ..self@.program }, ..self@ }),
    {
        let mut p = self;
        p.program.arg(arg);
        p
    }

    /// Adds several arguments, in order.
    pub fn args(self, args: &[&str]) -> (p: Self)
        ensures
            p@ == (ProcessView {
                program: ProgramView { args: self@.program.args + str_texts(args@), ..self@.program },
                ..self@
            }),
    {
        let mut p = self;
        p.program.add_args(args);
        p
    }

    /// Runs the child in `dir` instead of the application's working directory.
    pub fn dir(self, dir: &str) -> (p: Self)
        ensures
            p@ == (ProcessView { program: ProgramView { dir: Some(dir@), ..self@.program }, ..self@ }),
    {
        let mut p = self;
        p.program.set_dir(dir);
        p
    }

    /// Sets one environment variable for the child.
    pub fn env(self, key: &str, value: &str) -> (p: Self)
        ensures
            p@ == (ProcessView {
                program: ProgramView { env: self@.program.env.push((key@, value@)), ..self@.program },
                ..self@
            }),
    {
        let mut p = self;
        p.program.set_env(key, value);
        p
    }

    /// Runs the child on a pseudo-terminal `cols` wide and `rows` tall.
    pub fn pty(self, cols: u16, rows: u16) -> (p: Self)
        ensures
            p@ == (ProcessView { pty: Some((cols, rows)), ..self@ }),
    {
        Process { pty: Some((cols, rows)), ..self }
    }

    /// Gives the child no standard input.
    pub fn no_stdin(self) -> (p: Self)
        ensures
            p@ == (ProcessView { no_stdin: true, ..self@ }),
    {
        Process { no_stdin: true, ..self }
    }

    /// The program to run.
    pub fn program(&self) -> (program: &Program)
        ensures
            program@ == self@.program,
    {
        &self.program
    }

    /// The size of the pseudo-terminal asked for, if any.
    pub fn pty_size(&self) -> (size: Option<(u16, u16)>)
        ensures
            size == self@.pty,
    {
        self.pty
    }

    /// Whether the child reads an empty standard input.
    pub fn without_stdin(&self) -> (none: bool)
        ensures
            none == self@.no_stdin,
    {
        self.no_stdin
    }

    /// Whether the child starts in a process group of its own, so cancelling ends the programs it
    /// started too: only with no standard input, and only where there are process groups. A
    /// child that reads the terminal stays in the application's group, where reading it is
    /// allowed.
    pub fn own_group(&self, unix: bool) -> (group: bool)
        ensures
            group == (self@.no_stdin && unix),
    {
        self.no_stdin && unix
    }
}

/// A handoff as a test sees it: the program, its arguments, the notice and whether it pauses.
#[derive(Debug, PartialEq, Eq)]
pub struct HandoffRequest {
    pub program: String,
    pub args: Vec<String>,
    pub notice: Option<String>,
    pub pause: bool,
}

/// Hands the terminal to another program for a while: the screen is released, the notice
/// printed, the program run attached to the terminal, and the screen taken back afterwards.
pub struct Handoff {
    program: Program,
    notice: Option<String>,
    pause: bool,
}

/// What a [`Handoff`] holds.
pub struct HandoffView {
    pub program: ProgramView,
    pub notice: Option<Seq<char>>,
    pub pause: bool,
}

impl View for Handoff {
    type V = HandoffView;

    closed spec fn view(&self) -> HandoffView {
        HandoffView { program: self.program@, notice: text_of(self.notice), pause: self.pause }
    }
}

/// A copy of `strings`.
fn copy_strings(strings: &Vec<String>) -> (copy: Vec<String>)
    ensures
        texts(copy@) == texts(strings@),
{
    let mut copy: Vec<String> = Vec::new();
    let mut i: usize = 0;
    while i < strings.len()
        invariant
            i <= strings@.len(),
            copy@.len() == i,
            forall|j: int| 0 <= j < i ==> #[trigger] copy@[j]@ == strings@[j]@,
        decreases strings@.len() - i,
    {
        copy.push(strings[i].clone());
        i = i + 1;
    }
    assert(texts(copy@) =~= texts(strings@));
    copy
}

/// A copy of an optional string.
fn copy_text(text: &Option<String>) -> (copy: Option<String>)
    ensures
        text_of(copy) == text_of(*text),
{
    match text {
        Some(t) => Some(t.clone()),
        None => None,
    }
}

impl Handoff {
    /// Hands the terminal to `program`, with no notice and no pause.
    pub fn new(program: &str) -> (h: Self)
        ensures
            h@ == (HandoffView {
                program: ProgramView { program: program@, args: Seq::empty(), dir: None, env: Seq::empty() },
                notice: None,
                pause: false,
            }),
    {
        Handoff { program: Program::new(program), notice: None, pause: false }
    }

    /// Adds one argument.
    pub fn arg(self, arg: &str) -> (h: Self)
        ensures
            h@ == (HandoffView { program: ProgramView { args: self@.program.args.push(arg@), ..self@.program }, ..self@ }),
    {
        let mut h = self;
        h.program.arg(arg);
        h
    }

    /// Adds several arguments, in order.
    pub fn args(self, args: &[&str]) -> (h: Self)
        ensures
            h@ == (HandoffView {
                program: ProgramView { args: self@.program.args + str_texts(args@), ..self@.program },
                ..self@
            }),
    {
        let mut h = self;
        h.program.add_args(args);
        h
    }

    /// Runs the program in `dir`.
    pub fn dir(self, dir: &str) -> (h: Self)
        ensures
            h@ == (HandoffView { program: ProgramView { dir: Some(dir@), ..self@.program }, ..self@ }),
    {
        let mut h = self;
        h.program.set_dir(dir);
        h
    }

    /// Sets an environment variable for the program.
    pub fn env(self, key: &str, value: &str) -> (h: Self)
        ensures
            h@ == (HandoffView {
                program: ProgramView { env: self@.program.env.push((key@, value@)), ..self@.program },
                ..self@
            }),
    {
        let mut h = self;
        h.program.set_env(key, value);
        h
    }

    /// A line printed on the cleared screen before the program starts.
    pub fn notice(self, text: &str) -> (h: Self)
        ensures
            h@ == (HandoffView { notice: Some(text@), ..self@ }),
    {
        Handoff { notice: Some(text.to_owned()), ..self }
    }

    /// Waits for a key press after the program ends, so its last output can be read.
    pub fn pause(self, pause: bool) -> (h: Self)
        ensures
            h@ == (HandoffView { pause: pause, ..self@ }),
    {
        Handoff { pause, ..self }
    }

    /// The program to run.
    pub fn program(&self) -> (program: &Program)
        ensures
            program@ == self@.program,
    {
        &self.program
    }

    /// The notice, if any.
    pub fn notice_text(&self) -> (notice: &Option<String>)
        ensures
            text_of(*notice) == self@.notice,
    {
        &self.notice
    }

    /// What a test sees of this handoff.
    pub fn request(&self) -> (request: HandoffRequest)
        ensures
            request.program@ == self@.program.program,
            texts(request.args@) == self@.program.args,
            text_of(request.notice) == self@.notice,
            request.pause == self@.pause,
    {
        HandoffRequest {
            program: self.program.program.clone(),
            args: copy_strings(&self.program.args),
            notice: copy_text(&self.notice),
            pause: self.pause,
        }
    }
}

/// The desktops whose openers differ.
#[derive(Debug, Clone, Copy, PartialEq, Eq, Structural)]
pub enum Desktop {
    /// macOS: `open`.
    MacOs,
    /// Windows: `start`, through `cmd`.
    Windows,
    /// Any other Unix: `xdg-open`.
    Unix,
}

/// The program that opens `target` on `desktop`, and its arguments.
pub open spec fn opener_of(target: Seq<char>, desktop: Desktop) -> (Seq<char>, Seq<Seq<char>>) {
    match desktop {
        Desktop::MacOs => ("open"@, seq![target]),
        Desktop::Unix => ("xdg-open"@, seq![target]),
        Desktop::Windows => ("cmd"@, seq!["/C"@, "start"@, ""@, target]),
    }
}

/// The opener of `desktop` and the arguments that give it `target`. On Windows the empty
/// argument is the window title `start` would otherwise read the target as.
pub fn opener(target: &str, desktop: Desktop) -> (opener: Program)
    ensures
        opener@.program == opener_of(target@, desktop).0,
        opener@.args == opener_of(target@, desktop).1,
        opener@.dir is None,
        opener@.env.len() == 0,
{
    let mut program = match desktop {
        Desktop::MacOs => Program::new("open"),
        Desktop::Unix => Program::new("xdg-open"),
        Desktop::Windows => {
            let mut p = Program::new("cmd");
            p.arg("/C");
            p.arg("start");
            p.arg("");
            p
        },
    };
    program.arg(target);
    assert(program@.args =~= opener_of(target@, desktop).1);
    program
}

/// An opening as a test sees it: the program, its arguments, the target handed to the desktop's
/// opener and the folder it starts in.
#[derive(Debug, PartialEq, Eq)]
pub struct OpenRequest {
    pub program: String,
    pub args: Vec<String>,
    pub target: Option<String>,
    pub dir: Option<String>,
}

/// Starts a program beside the application: the desktop's own opener for an address or a path,
/// or a program named outright. The screen stays where it is.
pub struct Open {
    program: Program,
    target: Option<String>,
}

/// What an [`Open`] holds.
pub struct OpenView {
    pub program: ProgramView,
    pub target: Option<Seq<char>>,
}

impl View for Open {
    type V = OpenView;

    closed spec fn view(&self) -> OpenView {
        OpenView { program: self.program@, target: text_of(self.target) }
    }
}

impl Open {
    /// Opens `target` with the opener of `desktop`.
    pub fn new(target: &str, desktop: Desktop) -> (o: Self)
        ensures
            o@.program.program == opener_of(target@, desktop).0,
            o@.program.args == opener_of(target@, desktop).1,
            o@.program.dir is None,
            o@.program.env.len() == 0,
            o@.target == Some(target@),
    {
        Open { program: opener(target, desktop), target: Some(target.to_owned()) }
    }

    /// Starts `program` itself instead of the desktop's opener.
    pub fn program(program: &str) -> (o: Self)
        ensures
            o@ == (OpenView {
                program: ProgramView { program: program@, args: Seq::empty(), dir: None, env: Seq::empty() },
                target: None,
            }),
    {
        Open { program: Program::new(program), target: None }
    }

    /// Adds one argument.
    pub fn arg(self, arg: &str) -> (o: Self)
        ensures
            o@ == (OpenView { program: ProgramView { args: self@.program.args.push(arg@), ..self@.program }, ..self@ }),
    {
        let mut o = self;
        o.program.arg(arg);
        o
    }

    /// Adds several arguments, in order.
    pub fn args(self, args: &[&str]) -> (o: Self)
        ensures
            o@ == (OpenView {
                program: ProgramView { args: self@.program.args + str_texts(args@), ..self@.program },
                ..self@
            }),
    {
        let mut o = self;
        o.program.add_args(args);
        o
    }

    /// Starts the program in `dir`.
    pub fn dir(self, dir: &str) -> (o: Self)
        ensures
            o@ == (OpenView { program: ProgramView { dir: Some(dir@), ..self@.program }, ..self@ }),
    {
        let mut o = self;
        o.program.set_dir(dir);
        o
    }

    /// Sets an environment variable for the program.
    pub fn env(self, key: &str, value: &str) -> (o: Self)
        ensures
            o@ == (OpenView {
                program: ProgramView { env: self@.program.env.push((key@, value@)), ..self@.program },
                ..self@
            }),
    {
        let mut o = self;
        o.program.set_env(key, value);
        o
    }

    /// The program to start.
    pub fn program_to_start(&self) -> (program: &Program)
        ensures
            program@ == self@.program,
    {
        &self.program
    }

    /// What a test sees of this opening.
    pub fn request(&self) -> (request: OpenRequest)
        ensures
            request.program@ == self@.program.program,
            texts(request.args@) == self@.program.args,
            text_of(request.target) == self@.target,
            text_of(request.dir) == self@.program.dir,
    {
        OpenRequest {
            program: self.program.program.clone(),
            args: copy_strings(&self.program.args),
            target: copy_text(&self.target),
            dir: copy_text(&self.program.dir),
        }
    }
}

/// Where carrying out a handoff is.
#[derive(Debug, PartialEq, Eq)]
pub enum HandoffStage {
    /// The screen is being released.
    Releasing,
    /// The program runs.
    Running,
    /// The program ended; a key is awaited so its last output can be read.
    Pausing(HandoffOutcome),
    /// The screen is being taken back. `released` tells whether it was released at all: when
    /// not, the outcome is the failure to release, whatever taking it back gives.
    Taking { outcome: HandoffOutcome, released: bool },
    /// The handoff is over.
    Done,
}

/// What happened since the last step.
#[derive(Debug, PartialEq, Eq)]
pub enum HandoffEvent {
    /// The screen was released.
    Released,
    /// The screen could not be released, for this reason.
    ReleaseFailed(String),
    /// The program ended, or could not be started.
    Ran(HandoffOutcome),
    /// The awaited key was pressed, or waiting for it failed.
    KeyPressed,
    /// The screen was taken back.
    Taken,
    /// The screen could not be taken back, for this reason.
    TakeFailed(String),
}

/// What to do next.
#[derive(Debug, PartialEq, Eq)]
pub enum HandoffAction {
    /// Start the program attached to the terminal and wait for it.
    Spawn,
    /// Wait for one key press.
    WaitForKey,
    /// Take the screen back and draw everything again.
    Take,
    /// The handoff ended with this outcome: deliver its message.
    Finish(HandoffOutcome),
    /// The event does not belong to this stage: nothing to do.
    Nothing,
}

/// The next stage and action of a handoff that pauses when `pause`, at `stage`, after `event`.
pub open spec fn handoff_step(stage: HandoffStage, event: HandoffEvent, pause: bool) -> (HandoffStage, HandoffAction) {
    match (stage, event) {
        (HandoffStage::Releasing, HandoffEvent::Released) => (HandoffStage::Running, HandoffAction::Spawn),
        (HandoffStage::Releasing, HandoffEvent::ReleaseFailed(error)) => (
            HandoffStage::Taking { outcome: HandoffOutcome::Failed(error), released: false },
            HandoffAction::Take,
        ),
        (HandoffStage::Running, HandoffEvent::Ran(outcome)) => if pause && outcome is Finished {
            (HandoffStage::Pausing(outcome), HandoffAction::WaitForKey)
        } else {
            (HandoffStage::Taking { outcome: outcome, released: true }, HandoffAction::Take)
        },
        (HandoffStage::Pausing(outcome), HandoffEvent::KeyPressed) => (
            HandoffStage::Taking { outcome: outcome, released: true },
            HandoffAction::Take,
        ),
        (HandoffStage::Taking { outcome, released }, HandoffEvent::Taken) => (
            HandoffStage::Done,
            HandoffAction::Finish(outcome),
        ),
        (HandoffStage::Taking { outcome, released }, HandoffEvent::TakeFailed(error)) => (
            HandoffStage::Done,
            HandoffAction::Finish(if released { HandoffOutcome::Failed(error) } else { outcome }),
        ),
        (stage, _) => (stage, HandoffAction::Nothing),
    }
}

/// The first stage of a handoff: the screen is released, with the notice printed on it.
pub fn handoff_begins() -> (stage: HandoffStage)
    ensures
        stage == HandoffStage::Releasing,
{
    HandoffStage::Releasing
}

/// The next stage and action of a handoff that pauses when `pause`, at `stage`, after `event`:
/// the program starts only once the screen is released; a key is awaited only after a program
/// that ran, when asked for; the screen is taken back however the program ended, and the
/// outcome is delivered only then.
pub fn handoff_next(stage: HandoffStage, event: HandoffEvent, pause: bool) -> (next: (HandoffStage, HandoffAction))
    ensures
        next == handoff_step(stage, event, pause),
{
    match (stage, event) {
        (HandoffStage::Releasing, HandoffEvent::Released) => (HandoffStage::Running, HandoffAction::Spawn),
        (HandoffStage::Releasing, HandoffEvent::ReleaseFailed(error)) => (
            HandoffStage::Taking { outcome: HandoffOutcome::Failed(error), released: false },
            HandoffAction::Take,
        ),
        (HandoffStage::Running, HandoffEvent::Ran(outcome)) => {
            let finished = match &outcome {
                HandoffOutcome::Finished { .. } => true,
                HandoffOutcome::Failed(_) => false,
            };
            if pause && finished {
                (HandoffStage::Pausing(outcome), HandoffAction::WaitForKey)
            } else {
                (HandoffStage::Taking { outcome, released: true }, HandoffAction::Take)
            }
        },
        (HandoffStage::Pausing(outcome), HandoffEvent::KeyPressed) => (
            HandoffStage::Taking { outcome, released: true },
            HandoffAction::Take,
        ),
        (HandoffStage::Taking { outcome, released: _ }, HandoffEvent::Taken) => (
            HandoffStage::Done,
            HandoffAction::Finish(outcome),
        ),
        (HandoffStage::Taking { outcome, released }, HandoffEvent::TakeFailed(error)) => {
            let delivered = if released {
                HandoffOutcome::Failed(error)
            } else {
                outcome
            };
            (HandoffStage::Done, HandoffAction::Finish(delivered))
        },
        (stage, _) => (stage, HandoffAction::Nothing),
    }
}

/// The order of a handoff holds at every step: the program is started only right after the
/// screen was released; the outcome is delivered only right after the screen was taken back;
/// a key is awaited only after a program that ran to its end, and only when the handoff pauses.
pub proof fn lemma_the_screen_comes_back_before_the_answer(stage: HandoffStage, event: HandoffEvent, pause: bool)
    ensures
        handoff_step(stage, event, pause).1 == HandoffAction::Spawn ==> stage == HandoffStage::Releasing
            && event == HandoffEvent::Released,
        handoff_step(stage, event, pause).1 is Finish ==> stage is Taking && (event is Taken || event is TakeFailed)
            && handoff_step(stage, event, pause).0 == HandoffStage::Done,
        handoff_step(stage, event, pause).1 == HandoffAction::WaitForKey ==> pause && stage == HandoffStage::Running
            && (event matches HandoffEvent::Ran(HandoffOutcome::Finished { .. })),
{
}

} // verus!
