use std::collections::VecDeque;

use qframe::detached::{
    detached_begins, detached_next, DetachedAction, DetachedEvent, DetachedHandoff, DetachedOutcome, DetachedStage,
};

type Child = &'static str;

/// Carries out `handoff` against a recording screen, the program's part answered by `program`
/// in order. Returns the outcome and what was done, in order.
fn detach(handoff: &DetachedHandoff, release_fails: bool, program: Vec<DetachedEvent<Child>>) -> (DetachedOutcome<Child>, Vec<String>) {
    let pause = handoff.request().pause;
    let mut program: VecDeque<DetachedEvent<Child>> = program.into();
    let mut steps = vec![match handoff.notice_text() {
        Some(text) => format!("release {text}"),
        None => "release".to_owned(),
    }];
    let mut stage: DetachedStage<Child> = detached_begins();
    let mut event = if release_fails { DetachedEvent::ReleaseFailed("no terminal".to_owned()) } else { DetachedEvent::Released };
    loop {
        let (next, action) = detached_next(stage, event, pause);
        stage = next;
        event = match action {
            DetachedAction::Spawn
            | DetachedAction::Watch
            | DetachedAction::Listen
            | DetachedAction::Abandon
            | DetachedAction::CloseAndWait
            | DetachedAction::GiveBack => {
                steps.push(format!("{action:?}"));
                program.pop_front().expect("the program has more to say")
            }
            DetachedAction::WaitForKey => {
                steps.push("key".to_owned());
                DetachedEvent::KeyPressed
            }
            DetachedAction::Take => {
                steps.push("take".to_owned());
                DetachedEvent::Taken
            }
            DetachedAction::Finish(outcome) => {
                assert!(program.is_empty(), "every step of the program was asked for");
                return (outcome, steps);
            }
            DetachedAction::Nothing => panic!("an event out of order"),
        };
    }
}

fn said(line: &str) -> DetachedEvent<Child> {
    DetachedEvent::Said { child: "helper", line: line.to_owned() }
}

#[test]
fn the_first_line_brings_the_screen_back_and_the_child_runs_on() {
    let handoff = DetachedHandoff::new("sh").args(&["-c", "echo ready; echo more; cat"]).notice("Starting the helper");
    let (outcome, steps) = detach(
        &handoff,
        false,
        vec![DetachedEvent::Spawned, DetachedEvent::StillRunning, said("ready"), DetachedEvent::GaveBack],
    );
    assert_eq!(outcome, DetachedOutcome::Detached { child: "helper", first_line: "ready".to_owned() });
    assert_eq!(
        steps,
        ["release Starting the helper", "Spawn", "Watch", "Watch", "GiveBack", "take"],
        "the screen came back while the child runs"
    );
}

#[test]
fn a_program_that_ends_before_its_first_line_finishes_as_a_handoff_would() {
    let handoff = DetachedHandoff::new("sh").args(&["-c", "exit 126"]);
    let ended = |code: Option<i32>| {
        vec![
            DetachedEvent::Spawned,
            DetachedEvent::Ended,
            DetachedEvent::Silent,
            DetachedEvent::Waited(Ok(code)),
            DetachedEvent::GaveBack,
        ]
    };
    let (outcome, steps) = detach(&handoff, false, ended(Some(126)));
    assert_eq!(outcome, DetachedOutcome::Finished { code: Some(126) }, "pkexec's code for a refused password");
    assert_eq!(steps, ["release", "Spawn", "Watch", "Listen", "CloseAndWait", "GiveBack", "take"]);
    let (outcome, _) = detach(&handoff, false, ended(None));
    assert_eq!(outcome, DetachedOutcome::Finished { code: None }, "a signal leaves no code");
}

#[test]
fn a_program_that_closes_its_output_is_waited_for() {
    let handoff = DetachedHandoff::new("sh").args(&["-c", "exec >&-; sleep 0.2; exit 4"]);
    let (outcome, steps) = detach(
        &handoff,
        false,
        vec![DetachedEvent::Spawned, DetachedEvent::Silent, DetachedEvent::Waited(Ok(Some(4))), DetachedEvent::GaveBack],
    );
    assert_eq!(outcome, DetachedOutcome::Finished { code: Some(4) }, "the end of the output is not the end");
    assert_eq!(steps, ["release", "Spawn", "Watch", "CloseAndWait", "GiveBack", "take"]);
}

#[test]
fn a_line_said_just_before_the_end_still_detaches_and_the_end_follows() {
    let handoff = DetachedHandoff::new("sh").args(&["-c", "echo ready; exit 5"]);
    let (outcome, steps) = detach(
        &handoff,
        false,
        vec![DetachedEvent::Spawned, DetachedEvent::Ended, said("ready"), DetachedEvent::GaveBack],
    );
    assert_eq!(outcome, DetachedOutcome::Detached { child: "helper", first_line: "ready".to_owned() });
    assert_eq!(steps, ["release", "Spawn", "Watch", "Listen", "GiveBack", "take"]);
}

#[test]
fn pause_waits_for_a_key_only_when_the_program_ended_without_detaching() {
    let handoff = DetachedHandoff::new("sh").args(&["-c", "exit 3"]).pause(true);
    let (outcome, steps) = detach(
        &handoff,
        false,
        vec![DetachedEvent::Spawned, DetachedEvent::Silent, DetachedEvent::Waited(Ok(Some(3))), DetachedEvent::GaveBack],
    );
    assert_eq!(outcome, DetachedOutcome::Finished { code: Some(3) });
    assert_eq!(steps, ["release", "Spawn", "Watch", "CloseAndWait", "GiveBack", "key", "take"]);
    let (outcome, steps) = detach(&handoff, false, vec![DetachedEvent::Spawned, said("ready"), DetachedEvent::GaveBack]);
    assert!(matches!(outcome, DetachedOutcome::Detached { .. }));
    assert_eq!(steps, ["release", "Spawn", "Watch", "GiveBack", "take"], "a program that detached is not waited on");
    let (outcome, steps) = detach(&handoff, false, vec![DetachedEvent::SpawnFailed("no such program".to_owned())]);
    assert_eq!(outcome, DetachedOutcome::Failed("no such program".to_owned()));
    assert_eq!(steps, ["release", "Spawn", "take"], "nothing ran, so nothing to read");
}

#[test]
fn detached_an_unstartable_program_fails_and_the_screen_still_comes_back() {
    let handoff = DetachedHandoff::new("/nonexistent/quvyta-no-such-program");
    let (outcome, steps) = detach(&handoff, false, vec![DetachedEvent::SpawnFailed("No such file or directory".to_owned())]);
    assert_eq!(outcome, DetachedOutcome::Failed("No such file or directory".to_owned()));
    assert_eq!(steps, ["release", "Spawn", "take"]);
}

#[test]
fn detached_a_terminal_that_cannot_be_released_fails_without_running_the_program() {
    let handoff = DetachedHandoff::new("sh").args(&["-c", "echo ready"]);
    let (outcome, steps) = detach(&handoff, true, vec![]);
    assert_eq!(outcome, DetachedOutcome::Failed("no terminal".to_owned()));
    assert_eq!(steps, ["release", "take"], "taking the screen back puts a half-released one right");
}

#[test]
fn detached_arguments_the_directory_and_the_environment_reach_the_program() {
    let handoff = DetachedHandoff::new("sh")
        .arg("-c")
        .arg("echo \"$PWD $QUVYTA_TEST_VAR\"")
        .dir("/tmp")
        .env("QUVYTA_TEST_VAR", "set");
    let program = handoff.program();
    assert_eq!(program.program, "sh");
    assert_eq!(program.args, ["-c", "echo \"$PWD $QUVYTA_TEST_VAR\""]);
    assert_eq!(program.dir.as_deref(), Some("/tmp"));
    assert_eq!(program.env, [("QUVYTA_TEST_VAR".to_owned(), "set".to_owned())]);
    let request = handoff.request();
    assert_eq!(request.program, "sh");
    assert_eq!(request.notice, None);
    assert!(!request.pause);
}

#[test]
fn a_program_that_cannot_be_used_is_killed_and_fails() {
    let handoff = DetachedHandoff::new("sh");
    let (outcome, steps) = detach(
        &handoff,
        false,
        vec![DetachedEvent::Spawned, DetachedEvent::Unusable("the program's pipes could not be opened".to_owned()), DetachedEvent::Abandoned],
    );
    assert_eq!(outcome, DetachedOutcome::Failed("the program's pipes could not be opened".to_owned()));
    assert_eq!(steps, ["release", "Spawn", "Watch", "Abandon", "take"]);
    let (outcome, _) = detach(
        &handoff,
        false,
        vec![DetachedEvent::Spawned, DetachedEvent::CheckFailed("wait failed".to_owned()), DetachedEvent::Abandoned],
    );
    assert_eq!(outcome, DetachedOutcome::Failed("wait failed".to_owned()));
}

#[test]
fn a_foreground_that_cannot_be_given_back_fails() {
    let handoff = DetachedHandoff::new("sh");
    let (outcome, _) = detach(
        &handoff,
        false,
        vec![DetachedEvent::Spawned, said("ready"), DetachedEvent::GiveBackFailed("not a terminal".to_owned())],
    );
    assert_eq!(outcome, DetachedOutcome::Failed("not a terminal".to_owned()));
    let (outcome, _) = detach(
        &handoff,
        false,
        vec![
            DetachedEvent::Spawned,
            DetachedEvent::Silent,
            DetachedEvent::Waited(Err("wait failed".to_owned())),
            DetachedEvent::GiveBackFailed("not a terminal".to_owned()),
        ],
    );
    assert_eq!(outcome, DetachedOutcome::Failed("wait failed".to_owned()), "the wait's failure is told first");
}

#[test]
fn an_event_out_of_order_changes_nothing() {
    let (stage, action) = detached_next::<Child>(DetachedStage::Watching, DetachedEvent::Taken, false);
    assert_eq!(stage, DetachedStage::Watching);
    assert_eq!(action, DetachedAction::Nothing);
}
