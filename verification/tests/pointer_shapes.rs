use qframe::pointer_shapes::{pointer_shapes_supported, TerminalVars, POINTER_SHAPES_VAR};

fn with(vars: &[(&str, &str)]) -> bool {
    let get = |name: &str| vars.iter().find(|(k, _)| *k == name).map(|(_, v)| (*v).to_owned());
    pointer_shapes_supported(&TerminalVars {
        pointer_shapes: get(POINTER_SHAPES_VAR),
        tmux: get("TMUX"),
        sty: get("STY"),
        term: get("TERM"),
        term_program: get("TERM_PROGRAM"),
    })
}

#[test]
fn pointer_shapes_are_sent_only_to_terminals_known_to_understand_them() {
    assert!(with(&[("TERM", "xterm-kitty")]), "kitty");
    assert!(with(&[("TERM", "foot")]) && with(&[("TERM", "foot-extra")]), "foot");
    assert!(with(&[("TERM", "xterm-256color"), ("TERM_PROGRAM", "WezTerm")]), "WezTerm");
    assert!(!with(&[("TERM", "xterm-256color")]), "an unknown terminal gets nothing");
    assert!(!with(&[]), "nor does one that says nothing");
    assert!(!with(&[("TERM", "tmux-256color"), ("TMUX", "/tmp/tmux-1000/default,1,0")]), "tmux does not pass it on");
    assert!(!with(&[("TERM", "xterm-kitty"), ("TMUX", "/tmp/tmux-1000/default,1,0")]));
    assert!(with(&[("TERM", "xterm-256color"), (POINTER_SHAPES_VAR, "on")]), "the variable turns it on");
    assert!(!with(&[("TERM", "xterm-kitty"), (POINTER_SHAPES_VAR, "off")]), "and off");
    assert!(with(&[("TERM", "xterm-kitty"), (POINTER_SHAPES_VAR, "auto")]), "anything else leaves it to the terminal");
}

#[test]
fn values_are_read_without_case_or_surrounding_spaces() {
    assert!(with(&[("TERM", "xterm-256color"), (POINTER_SHAPES_VAR, "  ON ")]));
    assert!(!with(&[("TERM", " Foot "), ("STY", "1234.pts-0.host")]), "screen does not pass it on");
    assert!(with(&[("TERM", " Foot ")]));
    assert!(with(&[("TERM_PROGRAM", "KITTY")]));
}
