//! Whether the terminal changes the pointer's shape on OSC 22.
//!
//! `QUVYTA_POINTER_SHAPES=on` or `off` decides outright. Otherwise only terminals known to
//! understand it answer yes: kitty (`TERM=xterm-kitty`), foot (`TERM=foot` or `foot-extra`) and
//! WezTerm (`TERM_PROGRAM=WezTerm`). Inside tmux or screen the answer is no, since the
//! multiplexer does not pass the sequence on. An unknown terminal is sent nothing: a sequence it
//! does not know could show up as text.

use vstd::prelude::*;

use crate::text::{lowered, to_lowercase, trim_str, trimmed};

verus! {

/// The variable that decides outright.
pub const POINTER_SHAPES_VAR: &'static str = "QUVYTA_POINTER_SHAPES";

/// The variables the answer depends on, as the environment holds them.
pub struct TerminalVars {
    /// `QUVYTA_POINTER_SHAPES`.
    pub pointer_shapes: Option<String>,
    /// `TMUX`.
    pub tmux: Option<String>,
    /// `STY`, set inside screen.
    pub sty: Option<String>,
    /// `TERM`.
    pub term: Option<String>,
    /// `TERM_PROGRAM`.
    pub term_program: Option<String>,
}

/// A variable's value without the white space around it, in lower case; `None` when unset.
pub open spec fn setting(value: Option<String>) -> Option<Seq<char>> {
    match value {
        Some(v) => Some(lowered(trimmed(v@))),
        None => None,
    }
}

/// A variable's value as [`setting`] reads it, empty when unset.
pub open spec fn setting_or_empty(value: Option<String>) -> Seq<char> {
    match setting(value) {
        Some(v) => v,
        None => Seq::empty(),
    }
}

/// Whether the terminal described by `vars` changes the pointer's shape on OSC 22.
pub open spec fn shapes_supported(vars: TerminalVars) -> bool {
    if setting(vars.pointer_shapes) == Some("on"@) {
        true
    } else if setting(vars.pointer_shapes) == Some("off"@) {
        false
    } else if vars.tmux is Some || vars.sty is Some {
        false
    } else {
        let term = setting_or_empty(vars.term);
        let program = setting_or_empty(vars.term_program);
        term == "xterm-kitty"@ || term == "foot"@ || term == "foot-extra"@ || program == "wezterm"@
            || program == "kitty"@
    }
}

/// `value` without the white space around it, in lower case.
fn lower(value: &Option<String>) -> (out: Option<String>)
    ensures
        match out {
            Some(o) => setting(*value) == Some(o@),
            None => setting(*value) is None,
        },
{
    match value {
        Some(v) => {
            let inner = trim_str(v.as_str());
            Some(to_lowercase(inner.as_str()))
        },
        None => None,
    }
}

/// Whether `value` is the text `text`.
fn is(value: &String, text: &str) -> (same: bool)
    ensures
        same == (value@ == text@),
{
    let text = text.to_owned();
    *value == text
}

/// Whether the terminal described by `vars` changes the pointer's shape on OSC 22.
pub fn pointer_shapes_supported(vars: &TerminalVars) -> (supported: bool)
    ensures
        supported == shapes_supported(*vars),
{
    match lower(&vars.pointer_shapes) {
        Some(decided) => {
            if is(&decided, "on") {
                return true;
            }
            if is(&decided, "off") {
                return false;
            }
        },
        None => {},
    }
    if vars.tmux.is_some() || vars.sty.is_some() {
        return false;
    }
    let term = match lower(&vars.term) {
        Some(t) => t,
        None => String::new(),
    };
    let program = match lower(&vars.term_program) {
        Some(p) => p,
        None => String::new(),
    };
    is(&term, "xterm-kitty") || is(&term, "foot") || is(&term, "foot-extra") || is(&program, "wezterm") || is(
        &program,
        "kitty",
    )
}

} // verus!
