//! Reading what the user copied, from three sources in order, the first with text winning:
//!
//! 1. **The system clipboard tool**: `wl-paste` on Wayland, `xclip` or `xsel` on X11, `pbpaste`
//!    on macOS, each run without a shell.
//! 2. **The terminal**, asked with an OSC 52 clipboard query.
//! 3. **The text this application copied last.**
//!
//! The reader decides what comes next; running the tools and asking the terminal are left to
//! the caller, which hands their answers back.

use vstd::prelude::*;

use crate::text::utf8;

verus! {

/// A clipboard program and its arguments, run without a shell.
#[derive(Debug, PartialEq, Eq)]
pub struct Tool {
    pub program: String,
    pub args: Vec<String>,
}

/// A tool as text.
#[verifier::ext_equal]
pub struct ToolView {
    pub program: Seq<char>,
    pub args: Seq<Seq<char>>,
}

impl View for Tool {
    type V = ToolView;

    open spec fn view(&self) -> ToolView {
        ToolView { program: self.program@, args: self.args@.map_values(|a: String| a@) }
    }
}

/// The texts of `strs`.
pub open spec fn str_views(strs: Seq<&str>) -> Seq<Seq<char>> {
    strs.map_values(|s: &str| s@)
}

impl Tool {
    /// The tool `program` with `args`.
    pub fn new(program: &str, args: &[&str]) -> (tool: Self)
        ensures
            tool@.program == program@,
            tool@.args == str_views(args@),
    {
        let mut owned: Vec<String> = Vec::new();
        let mut i: usize = 0;
        while i < args.len()
            invariant
                i <= args@.len(),
                owned@.len() == i,
                forall|j: int| 0 <= j < i ==> #[trigger] owned@[j]@ == args@[j]@,
            decreases args@.len() - i,
        {
            owned.push(args[i].to_owned());
            i = i + 1;
        }
        assert(owned@.map_values(|a: String| a@) =~= str_views(args@));
        Tool { program: program.to_owned(), args: owned }
    }

    /// Another tool with the same program and arguments.
    pub fn copy(&self) -> (tool: Self)
        ensures
            tool@ == self@,
    {
        let mut args: Vec<String> = Vec::new();
        let mut i: usize = 0;
        while i < self.args.len()
            invariant
                i <= self.args@.len(),
                args@.len() == i,
                forall|j: int| 0 <= j < i ==> #[trigger] args@[j]@ == self.args@[j]@,
            decreases self.args@.len() - i,
        {
            args.push(self.args[i].clone());
            i = i + 1;
        }
        assert(args@.map_values(|a: String| a@) =~= self@.args);
        Tool { program: self.program.clone(), args }
    }
}

/// What a tool's run gives: its output when it succeeded with text that is UTF-8, `None` when it
/// failed, printed nothing or printed something that is not UTF-8.
pub fn tool_answer(success: bool, output: Vec<u8>) -> (text: Option<String>)
    ensures
        text is Some <==> success && vstd::utf8::valid_utf8(output@) && output@.len() > 0,
        text matches Some(t) ==> t@ == vstd::utf8::decode_utf8(output@),
{
    let empty = output.len() == 0;
    let text = utf8(output);
    match text {
        Some(t) => {
            if success && !empty {
                Some(t)
            } else {
                None
            }
        },
        None => None,
    }
}

/// The clipboard tools to try on this system, in order: `pbpaste` on macOS; elsewhere `wl-paste`
/// when a Wayland display is set, `xclip` and `xsel` when an X display is set.
pub fn platform_tools(macos: bool, wayland: bool, display: bool) -> (tools: Vec<Tool>)
    ensures
        tools_view(tools@) == platform_tool_views(macos, wayland, display),
{
    let mut tools: Vec<Tool> = Vec::new();
    if macos {
        let none: [&str; 0] = [];
        let pbpaste = Tool::new("pbpaste", &none);
        assert(pbpaste@.args =~= Seq::<Seq<char>>::empty());
        tools.push(pbpaste);
        assert(tools_view(tools@) =~= platform_tool_views(macos, wayland, display));
        return tools;
    }
    if wayland {
        let wl = Tool::new("wl-paste", &["--no-newline", "--type", "text"]);
        assert(wl@.args =~= seq!["--no-newline"@, "--type"@, "text"@]);
        tools.push(wl);
    }
    if display {
        let xclip = Tool::new("xclip", &["-o", "-selection", "clipboard"]);
        assert(xclip@.args =~= seq!["-o"@, "-selection"@, "clipboard"@]);
        let xsel = Tool::new("xsel", &["--clipboard", "--output"]);
        assert(xsel@.args =~= seq!["--clipboard"@, "--output"@]);
        tools.push(xclip);
        tools.push(xsel);
    }
    assert(tools_view(tools@) =~= platform_tool_views(macos, wayland, display));
    tools
}

/// The clipboard tools of a system, in order: `pbpaste` on macOS; elsewhere `wl-paste` when a
/// Wayland display is set, `xclip` and `xsel` when an X display is set.
pub open spec fn platform_tool_views(macos: bool, wayland: bool, display: bool) -> Seq<ToolView> {
    if macos {
        seq![ToolView { program: "pbpaste"@, args: Seq::empty() }]
    } else {
        (if wayland {
            seq![ToolView { program: "wl-paste"@, args: seq!["--no-newline"@, "--type"@, "text"@] }]
        } else {
            Seq::empty()
        }) + (if display {
            seq![
                ToolView { program: "xclip"@, args: seq!["-o"@, "-selection"@, "clipboard"@] },
                ToolView { program: "xsel"@, args: seq!["--clipboard"@, "--output"@] },
            ]
        } else {
            Seq::empty()
        })
    }
}

/// Where the first source, the system clipboard, comes from.
#[derive(Debug, PartialEq, Eq)]
pub enum SystemClipboard {
    /// The platform's clipboard programs, tried in order.
    Tools(Vec<Tool>),
    /// A fixed answer: the test harness never touches the real clipboard.
    Fixed(Option<String>),
}

/// What reading the clipboard needs next.
#[derive(Debug, PartialEq, Eq)]
pub enum ReadStep {
    /// The system tools are running; hand their answer to [`ClipboardReader::system_answer`].
    Waiting,
    /// Run these tools in order, stopping at the first with text, and hand its text to
    /// [`ClipboardReader::system_answer`].
    RunTools(Vec<Tool>),
    /// The system clipboard gave nothing: ask the terminal with OSC 52 and pass its answer to
    /// [`ClipboardReader::terminal_answer`].
    AskTerminal,
    /// Reading ended; `None` when neither the system nor the terminal had text, so the text the
    /// application copied last is used.
    Done(Option<String>),
}

/// Where a read is.
#[derive(Debug, Clone, Copy, PartialEq, Eq, Structural)]
pub enum ReadState {
    Idle,
    System,
    Terminal,
}

/// The views of `tools`.
pub open spec fn tools_view(tools: Seq<Tool>) -> Seq<ToolView> {
    tools.map_values(|t: Tool| t@)
}

/// The text of an optional string.
pub open spec fn text_of(text: Option<String>) -> Option<Seq<char>> {
    match text {
        Some(t) => Some(t@),
        None => None,
    }
}

/// The fixed answer of `system`, when it is one.
pub open spec fn fixed_of(system: SystemClipboard) -> Option<Option<Seq<char>>> {
    match system {
        SystemClipboard::Fixed(text) => Some(text_of(text)),
        SystemClipboard::Tools(_) => None,
    }
}

/// The tools of `system`, when it has them.
pub open spec fn tools_of(system: SystemClipboard) -> Option<Seq<ToolView>> {
    match system {
        SystemClipboard::Tools(tools) => Some(tools_view(tools@)),
        SystemClipboard::Fixed(_) => None,
    }
}

/// A read step as plain values.
pub enum StepView {
    Waiting,
    RunTools(Seq<ToolView>),
    AskTerminal,
    Done(Option<Seq<char>>),
}

/// `step` as plain values.
pub open spec fn step_view(step: ReadStep) -> StepView {
    match step {
        ReadStep::Waiting => StepView::Waiting,
        ReadStep::RunTools(run) => StepView::RunTools(tools_view(run@)),
        ReadStep::AskTerminal => StepView::AskTerminal,
        ReadStep::Done(text) => StepView::Done(text_of(text)),
    }
}

/// What a reader holds: where the read is, whether the terminal is asked, and the system
/// clipboard: a fixed answer or tools, exactly one of them.
#[verifier::ext_equal]
pub struct ReaderView {
    pub state: ReadState,
    pub terminal: bool,
    pub fixed: Option<Option<Seq<char>>>,
    pub tools: Option<Seq<ToolView>>,
}

/// `text`, unless it is empty.
pub open spec fn nonempty(text: Option<Seq<char>>) -> Option<Seq<char>> {
    match text {
        Some(t) => if t.len() > 0 { Some(t) } else { None },
        None => None,
    }
}

/// What comes after the system clipboard answered `text`: its text, or the terminal, or nothing.
pub open spec fn after_system_spec(r: ReaderView, text: Option<Seq<char>>) -> (ReaderView, StepView) {
    if text is Some {
        (ReaderView { state: ReadState::Idle, ..r }, StepView::Done(text))
    } else if r.terminal {
        (ReaderView { state: ReadState::Terminal, ..r }, StepView::AskTerminal)
    } else {
        (ReaderView { state: ReadState::Idle, ..r }, StepView::Done(None))
    }
}

/// Starting a read: a fixed system clipboard answers at once; tools are handed out to be run.
pub open spec fn start_spec(r: ReaderView) -> (ReaderView, StepView) {
    match r.fixed {
        Some(text) => after_system_spec(r, text),
        None => (
            ReaderView { state: ReadState::System, ..r },
            StepView::RunTools(
                match r.tools {
                    Some(tools) => tools,
                    None => Seq::empty(),
                },
            ),
        ),
    }
}

/// The tools' answer `text`, heard only while they run.
pub open spec fn system_answer_spec(r: ReaderView, text: Option<Seq<char>>) -> (ReaderView, StepView) {
    if r.state != ReadState::System {
        (r, StepView::Waiting)
    } else {
        after_system_spec(r, text)
    }
}

/// The terminal's answer `text`, heard only while it is asked; an empty answer is no text.
pub open spec fn terminal_answer_spec(r: ReaderView, text: Option<Seq<char>>) -> (ReaderView, StepView) {
    if r.state != ReadState::Terminal {
        (r, StepView::Waiting)
    } else {
        (ReaderView { state: ReadState::Idle, ..r }, StepView::Done(nonempty(text)))
    }
}

/// A whole read: started, the tools answering `tools_text` when they run, the terminal
/// answering `terminal_text` when it is asked.
pub open spec fn read_through(r: ReaderView, tools_text: Option<Seq<char>>, terminal_text: Option<Seq<char>>) -> (
    ReaderView,
    StepView,
) {
    let (r1, s1) = start_spec(r);
    let (r2, s2) = if s1 is RunTools {
        system_answer_spec(r1, tools_text)
    } else {
        (r1, s1)
    };
    if s2 is AskTerminal {
        terminal_answer_spec(r2, terminal_text)
    } else {
        (r2, s2)
    }
}

/// The text a read ends with: the system's when it has some, else the terminal's when it is
/// asked and has some, else none, and the application's own last copy is used.
pub open spec fn first_text(system: Option<Seq<char>>, terminal: bool, answer: Option<Seq<char>>) -> Option<Seq<char>> {
    if system is Some {
        system
    } else if terminal {
        nonempty(answer)
    } else {
        None
    }
}

/// The sources are tried in order and the first with text wins: a whole read ends with the
/// system clipboard's text when it has some, else with the terminal's when it is asked and has
/// some, else with none; the reader is then idle again, with its sources unchanged.
pub proof fn lemma_the_first_source_with_text_wins(
    r: ReaderView,
    tools_text: Option<Seq<char>>,
    terminal_text: Option<Seq<char>>,
)
    requires
        r.fixed is Some <==> r.tools is None,
    ensures
        read_through(r, tools_text, terminal_text).1 == StepView::Done(
            first_text(
                match r.fixed {
                    Some(text) => text,
                    None => tools_text,
                },
                r.terminal,
                terminal_text,
            ),
        ),
        read_through(r, tools_text, terminal_text).0 == (ReaderView { state: ReadState::Idle, ..r }),
{
}

/// Reads the clipboard from the system tool, then the terminal; see the module's notes.
#[derive(Debug)]
pub struct ClipboardReader {
    system: SystemClipboard,
    terminal: bool,
    state: ReadState,
}

impl View for ClipboardReader {
    type V = ReaderView;

    closed spec fn view(&self) -> ReaderView {
        ReaderView {
            state: self.state,
            terminal: self.terminal,
            fixed: fixed_of(self.system),
            tools: tools_of(self.system),
        }
    }
}

impl ClipboardReader {
    /// A reader of `system`, asking the terminal after it when `terminal` says so.
    pub fn new(system: SystemClipboard, terminal: bool) -> (reader: Self)
        ensures
            reader@ == (ReaderView {
                state: ReadState::Idle,
                terminal: terminal,
                fixed: fixed_of(system),
                tools: tools_of(system),
            }),
            reader@.fixed is Some <==> reader@.tools is None,
    {
        ClipboardReader { system, terminal, state: ReadState::Idle }
    }

    /// A reader for tests: a fixed system clipboard that starts empty and no terminal.
    pub fn fixed_reader() -> (reader: Self)
        ensures
            reader@ == (ReaderView {
                state: ReadState::Idle,
                terminal: false,
                fixed: Some(None::<Seq<char>>),
                tools: None,
            }),
    {
        ClipboardReader { system: SystemClipboard::Fixed(None), terminal: false, state: ReadState::Idle }
    }

    /// Replaces the system clipboard source.
    pub fn set_system(&mut self, system: SystemClipboard)
        ensures
            final(self)@ == (ReaderView { fixed: fixed_of(system), tools: tools_of(system), ..old(self)@ }),
    {
        self.system = system;
    }

    /// Whether a read is under way.
    pub fn is_reading(&self) -> (reading: bool)
        ensures
            reading == (self@.state != ReadState::Idle),
    {
        self.state != ReadState::Idle
    }

    /// What comes after the system clipboard's answer: its text, or the terminal, or nothing.
    fn after_system(&mut self, text: Option<String>) -> (step: ReadStep)
        ensures
            final(self)@ == after_system_spec(old(self)@, text_of(text)).0,
            step_view(step) == after_system_spec(old(self)@, text_of(text)).1,
    {
        if text.is_some() {
            self.state = ReadState::Idle;
            return ReadStep::Done(text);
        }
        if self.terminal {
            self.state = ReadState::Terminal;
            ReadStep::AskTerminal
        } else {
            self.state = ReadState::Idle;
            ReadStep::Done(None)
        }
    }

    /// Starts reading. Call only while no read is under way. A fixed system clipboard answers at
    /// once; the system's tools are handed out to be run.
    pub fn start(&mut self) -> (step: ReadStep)
        ensures
            final(self)@ == start_spec(old(self)@).0,
            step_view(step) == start_spec(old(self)@).1,
    {
        let fixed = match &self.system {
            SystemClipboard::Fixed(text) => Some(match text {
                Some(t) => Some(t.clone()),
                None => None,
            }),
            SystemClipboard::Tools(_) => None,
        };
        match fixed {
            Some(text) => self.after_system(text),
            None => {
                let mut run: Vec<Tool> = Vec::new();
                match &self.system {
                    SystemClipboard::Tools(tools) => {
                        let mut i: usize = 0;
                        while i < tools.len()
                            invariant
                                i <= tools@.len(),
                                run@.len() == i,
                                forall|j: int| 0 <= j < i ==> #[trigger] run@[j]@ == tools@[j]@,
                            decreases tools@.len() - i,
                        {
                            run.push(tools[i].copy());
                            i = i + 1;
                        }
                        assert(tools_view(run@) =~= tools_view(tools@));
                    },
                    SystemClipboard::Fixed(_) => {},
                }
                self.state = ReadState::System;
                ReadStep::RunTools(run)
            },
        }
    }

    /// The system tools' answer: the text of the first that had some, or `None`. Ignored unless
    /// the tools were asked for.
    pub fn system_answer(&mut self, text: Option<String>) -> (step: ReadStep)
        ensures
            final(self)@ == system_answer_spec(old(self)@, text_of(text)).0,
            step_view(step) == system_answer_spec(old(self)@, text_of(text)).1,
    {
        if self.state != ReadState::System {
            return ReadStep::Waiting;
        }
        self.after_system(text)
    }

    /// The terminal's answer to the OSC 52 query, `None` when it did not answer in time. An empty
    /// answer is no text; an answer nobody waits for is ignored.
    pub fn terminal_answer(&mut self, text: Option<String>) -> (step: ReadStep)
        ensures
            final(self)@ == terminal_answer_spec(old(self)@, text_of(text)).0,
            step_view(step) == terminal_answer_spec(old(self)@, text_of(text)).1,
    {
        if self.state != ReadState::Terminal {
            return ReadStep::Waiting;
        }
        self.state = ReadState::Idle;
        match text {
            Some(t) => {
                if t.as_str().is_empty() {
                    ReadStep::Done(None)
                } else {
                    ReadStep::Done(Some(t))
                }
            },
            None => ReadStep::Done(None),
        }
    }
}

} // verus!
