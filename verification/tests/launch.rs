use qframe::launch::{
    handoff_begins, handoff_next, opener, Desktop, Handoff, HandoffAction, HandoffEvent, HandoffStage, Open, Process,
};
use qframe::HandoffOutcome;

/// Carries a handoff through its steps, the terminal answering `release` and the program ending
/// with `ran`; returns its outcome and what it did to the screen, in order.
fn run_with(handoff: &Handoff, release: Result<(), &str>, ran: HandoffOutcome) -> (HandoffOutcome, Vec<String>) {
    let pause = handoff.request().pause;
    let mut steps = Vec::new();
    steps.push(match handoff.notice_text() {
        Some(text) => format!("release {text}"),
        None => "release".to_owned(),
    });
    let mut stage = handoff_begins();
    let mut event = match release {
        Ok(()) => HandoffEvent::Released,
        Err(reason) => HandoffEvent::ReleaseFailed(reason.to_owned()),
    };
    let mut ran = Some(ran);
    loop {
        let (next, action) = handoff_next(stage, event, pause);
        stage = next;
        event = match action {
            HandoffAction::Spawn => HandoffEvent::Ran(ran.take().expect("the program runs once")),
            HandoffAction::WaitForKey => {
                steps.push("key".to_owned());
                HandoffEvent::KeyPressed
            },
            HandoffAction::Take => {
                steps.push("take".to_owned());
                HandoffEvent::Taken
            },
            HandoffAction::Finish(outcome) => {
                assert_eq!(stage, HandoffStage::Done);
                return (outcome, steps);
            },
            HandoffAction::Nothing => panic!("every step answers the last"),
        };
    }
}

fn finished(code: i32) -> HandoffOutcome {
    HandoffOutcome::Finished { code: Some(code) }
}

#[test]
fn the_screen_is_released_around_the_program_and_taken_back() {
    let (outcome, steps) = run_with(&Handoff::new("sh").arg("-c").arg("exit 0").notice("Installing packages…"), Ok(()), finished(0));
    assert_eq!(outcome, finished(0));
    assert_eq!(steps, ["release Installing packages…", "take"], "the program ran while the screen was released");
}

#[test]
fn handoff_an_unstartable_program_fails_and_the_screen_still_comes_back() {
    let failed = HandoffOutcome::Failed("not found".to_owned());
    let (outcome, steps) = run_with(&Handoff::new("quvyta-no-such-program"), Ok(()), failed.clone());
    assert_eq!(outcome, failed);
    assert_eq!(steps, ["release", "take"], "the terminal is taken back even so");
}

#[test]
fn handoff_a_terminal_that_cannot_be_released_fails_without_running_the_program() {
    let (outcome, steps) = run_with(&Handoff::new("sh"), Err("no terminal"), finished(0));
    assert_eq!(outcome, HandoffOutcome::Failed("no terminal".to_owned()));
    assert_eq!(steps, ["release", "take"], "application mode is put back");
}

#[test]
fn pause_waits_for_a_key_only_when_it_is_asked_for() {
    let (_, waited) = run_with(&Handoff::new("sh").pause(true), Ok(()), finished(0));
    assert_eq!(waited, ["release", "key", "take"], "the key is awaited before the screen is taken back");
    let (_, quiet) = run_with(&Handoff::new("sh").pause(false), Ok(()), finished(0));
    assert_eq!(quiet, ["release", "take"]);
    let (_, missing) = run_with(&Handoff::new("quvyta-no-such-program").pause(true), Ok(()), HandoffOutcome::Failed("gone".to_owned()));
    assert_eq!(missing, ["release", "take"], "a program that never ran leaves nothing to read");
}

#[test]
fn a_screen_that_cannot_be_taken_back_fails_the_handoff() {
    let (next, action) = handoff_next(HandoffStage::Taking { outcome: finished(0), released: true }, HandoffEvent::TakeFailed("gone".to_owned()), false);
    assert_eq!(next, HandoffStage::Done);
    assert_eq!(action, HandoffAction::Finish(HandoffOutcome::Failed("gone".to_owned())));
    let (_, action) = handoff_next(HandoffStage::Running, HandoffEvent::Taken, false);
    assert_eq!(action, HandoffAction::Nothing, "an event out of turn changes nothing");
}

#[test]
fn the_request_a_harness_records_carries_the_program_and_its_options() {
    let handoff = Handoff::new("sh").arg("-c").arg("less /etc/hostname").notice("Reading").pause(true);
    let request = handoff.request();
    assert_eq!(request.program, "sh");
    assert_eq!(request.args, ["-c", "less /etc/hostname"]);
    assert_eq!(request.notice.as_deref(), Some("Reading"));
    assert!(request.pause);
}

#[test]
fn an_address_goes_to_the_opener_of_this_desktop_with_the_target_kept_for_the_test() {
    let request = Open::new("https://example.com/sign-in", Desktop::Unix).request();
    assert_eq!(request.target.as_deref(), Some("https://example.com/sign-in"));
    assert_eq!(request.args, ["https://example.com/sign-in"]);
    assert_eq!(request.program, "xdg-open");
    assert_eq!(Open::new("a.pdf", Desktop::MacOs).request().program, "open");
    let windows = opener("a.pdf", Desktop::Windows);
    assert_eq!(windows.program, "cmd");
    assert_eq!(windows.args, ["/C", "start", "", "a.pdf"]);
}

#[test]
fn a_program_of_its_own_carries_its_arguments_and_no_target() {
    let request = Open::program("gimp").arg("--new-instance").args(&["a.png", "b.png"]).request();
    assert_eq!(request.program, "gimp");
    assert_eq!(request.args, ["--new-instance", "a.png", "b.png"]);
    assert_eq!(request.target, None, "nothing was handed to an opener");
    assert_eq!(request.dir, None, "without `dir` the program starts where the application runs");
    let placed = Open::program("gimp").dir("/srv/pictures").request();
    assert_eq!(placed.dir.as_deref(), Some("/srv/pictures"), "the folder is recorded");
}

#[test]
fn a_process_keeps_what_it_is_given() {
    let process = Process::new("sh").args(&["-c", "echo ready"]).env("LC_ALL", "C").dir("/").pty(80, 24);
    let program = process.program();
    assert_eq!(program.program, "sh");
    assert_eq!(program.args, ["-c", "echo ready"]);
    assert_eq!(program.env, [("LC_ALL".to_owned(), "C".to_owned())]);
    assert_eq!(program.dir.as_deref(), Some("/"));
    assert_eq!(process.pty_size(), Some((80, 24)));
    assert!(!process.own_group(true), "a child that reads the terminal stays in the application's group");
    let quiet = Process::new("podman").no_stdin();
    assert!(quiet.without_stdin());
    assert!(quiet.own_group(true));
    assert!(!quiet.own_group(false), "no process groups without Unix");
}
