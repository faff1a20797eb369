use qframe::clipboard::{platform_tools, tool_answer, ClipboardReader, ReadStep, SystemClipboard, Tool};

fn fails() -> Tool {
    Tool::new("quvyta-no-such-clipboard-tool", &[])
}

fn names(macos: bool, wayland: bool, display: bool) -> Vec<String> {
    platform_tools(macos, wayland, display).into_iter().map(|tool| tool.program).collect()
}

#[test]
fn platform_tools_follow_the_display_server() {
    assert_eq!(names(false, true, false), ["wl-paste"]);
    assert_eq!(names(false, false, true), ["xclip", "xsel"]);
    assert_eq!(names(false, true, true), ["wl-paste", "xclip", "xsel"]);
    assert!(names(false, false, false).is_empty(), "over SSH without a display there is no tool");
    assert_eq!(names(true, true, true), ["pbpaste"]);
}

#[test]
fn platform_tools_carry_their_arguments() {
    let tools = platform_tools(false, true, true);
    assert_eq!(tools[0].args, ["--no-newline", "--type", "text"]);
    assert_eq!(tools[1].args, ["-o", "-selection", "clipboard"]);
    assert_eq!(tools[2].args, ["--clipboard", "--output"]);
}

#[test]
fn sources_are_tried_in_order() {
    let mut system = ClipboardReader::new(SystemClipboard::Tools(vec![fails(), Tool::new("printf", &["from wl-paste"])]), true);
    assert_eq!(
        system.start(),
        ReadStep::RunTools(vec![fails(), Tool::new("printf", &["from wl-paste"])]),
        "the tools are handed out in order"
    );
    assert!(system.is_reading());
    assert_eq!(system.system_answer(Some("from wl-paste".into())), ReadStep::Done(Some("from wl-paste".into())), "the first tool with text wins");
    assert!(!system.is_reading());

    let mut terminal = ClipboardReader::new(SystemClipboard::Tools(vec![fails()]), true);
    terminal.start();
    assert_eq!(terminal.system_answer(None), ReadStep::AskTerminal, "no tool had text: ask the terminal");
    assert!(terminal.is_reading());
    assert_eq!(terminal.terminal_answer(Some("from OSC 52".into())), ReadStep::Done(Some("from OSC 52".into())));

    let mut silent = ClipboardReader::new(SystemClipboard::Tools(vec![fails()]), true);
    silent.start();
    silent.system_answer(None);
    assert_eq!(silent.terminal_answer(None), ReadStep::Done(None), "then the application's own copy");
    assert_eq!(silent.terminal_answer(Some("late".into())), ReadStep::Waiting, "a late answer is ignored");

    let mut without_terminal = ClipboardReader::new(SystemClipboard::Tools(Vec::new()), false);
    without_terminal.start();
    assert_eq!(without_terminal.system_answer(None), ReadStep::Done(None));
}

#[test]
fn a_fixed_clipboard_answers_at_once() {
    let mut reader = ClipboardReader::fixed_reader();
    assert_eq!(reader.start(), ReadStep::Done(None));
    reader.set_system(SystemClipboard::Fixed(Some("from another program".into())));
    assert_eq!(reader.start(), ReadStep::Done(Some("from another program".into())));
    assert!(!reader.is_reading());
}

#[test]
fn an_empty_terminal_answer_is_no_text() {
    let mut reader = ClipboardReader::new(SystemClipboard::Fixed(None), true);
    assert_eq!(reader.start(), ReadStep::AskTerminal);
    assert_eq!(reader.terminal_answer(Some(String::new())), ReadStep::Done(None));
}

#[test]
fn answers_out_of_turn_are_ignored() {
    let mut reader = ClipboardReader::new(SystemClipboard::Fixed(None), true);
    assert_eq!(reader.system_answer(Some("early".into())), ReadStep::Waiting);
    assert_eq!(reader.terminal_answer(Some("early".into())), ReadStep::Waiting);
    assert!(!reader.is_reading());
}

#[test]
fn a_tool_answers_only_with_text_after_success() {
    assert_eq!(tool_answer(true, b"deploy $HOME".to_vec()), Some("deploy $HOME".to_owned()));
    assert_eq!(tool_answer(false, b"deploy".to_vec()), None, "a failing program");
    assert_eq!(tool_answer(true, Vec::new()), None, "an empty clipboard");
    assert_eq!(tool_answer(true, vec![0xff, 0xfe]), None, "not UTF-8");
}
