use qframe::{ChildLine, InputClosed, TestChild};

#[test]
fn written_lines_are_recorded_until_the_input_closes() {
    let mut program = TestChild::new();
    assert_eq!(program.write_line("status"), Ok(()));
    assert_eq!(program.written(), ["status"]);
    assert_eq!(program.try_wait(), None, "it runs until the test ends it");
    program.close_stdin();
    assert!(!program.stdin_open());
    assert_eq!(program.write_line("more"), Err(InputClosed));
    assert_eq!(program.written(), ["status"]);
}

#[test]
fn only_the_first_end_counts_and_nothing_is_said_after_it() {
    let mut program = TestChild::new();
    program.say("ready".to_owned());
    program.exit(Some(0));
    program.exit(Some(3));
    program.say("late".to_owned());
    assert_eq!(program.try_wait(), Some(Some(0)));
    assert_eq!(program.take_said(), [ChildLine::Line("ready".to_owned()), ChildLine::Ended { code: Some(0) }]);
    assert!(program.take_said().is_empty(), "what was handed on is not handed on again");
    assert_eq!(program.write_line("status"), Err(InputClosed), "an ended program reads nothing");
}

#[test]
fn killing_ends_the_program_by_a_signal() {
    let mut program = TestChild::new();
    program.kill();
    assert!(program.killed());
    assert_eq!(program.try_wait(), Some(None));
    assert_eq!(program.take_said(), [ChildLine::Ended { code: None }]);
    program.kill();
    assert_eq!(program.take_said(), [], "killing one that ended does nothing more");
}

#[test]
fn lines_written_in_a_row_are_kept_in_order_and_a_closed_input_stays_closed() {
    let mut program = TestChild::new();
    for line in ["one", "two", "three"] {
        assert!(program.write_line(line).is_ok());
    }
    assert_eq!(program.written(), ["one", "two", "three"]);
    assert_eq!(program.written(), ["one", "two", "three"], "reading changes nothing");
    program.close_stdin();
    program.close_stdin();
    program.say("still here".to_owned());
    let _ = program.take_said();
    assert!(!program.stdin_open());
    assert!(program.write_line("late").is_err());
}

#[test]
fn the_first_attach_gets_what_was_said_before_and_later_lines_after() {
    let mut program = TestChild::new();
    assert!(program.deliverable().is_empty(), "nothing attached yet");
    program.say("early".to_owned());
    assert!(program.deliverable().is_empty(), "kept for the first attach");
    assert_eq!(program.attach(), Some(vec![ChildLine::Line("early".to_owned())]));
    assert_eq!(program.attach(), None, "only the first attach counts");
    program.say("later".to_owned());
    program.exit(Some(3));
    assert_eq!(program.deliverable(), [ChildLine::Line("later".to_owned()), ChildLine::Ended { code: Some(3) }]);
    assert!(program.deliverable().is_empty());
}
