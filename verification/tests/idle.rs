use qframe::idle::Idle;

const SECOND: u64 = 1_000_000_000;
const MS: u64 = 1_000_000;

#[test]
fn idleness_starts_at_zero_and_grows_with_the_clock() {
    let idle = Idle::new();
    assert_eq!(idle.silence(0), 0, "before any input the silence counts from the start");
    assert_eq!(idle.silence(2500 * MS), 2500 * MS);
    assert_eq!(idle.silence(62_500 * MS), 62_500 * MS);
}

#[test]
fn a_watch_is_told_once_when_the_silence_begins_and_once_when_it_ends() {
    let mut idle = Idle::new();
    idle.settle(vec![300 * SECOND], false, 0);
    assert_eq!(idle.wake(299 * SECOND), (vec![], vec![]), "one second short");
    assert_eq!(idle.wake(300 * SECOND), (vec![], vec![0]), "told at the very moment");
    assert_eq!(idle.wake(900 * SECOND), (vec![], vec![]), "a silence is announced once");
    assert_eq!(idle.note_input(true, 901 * SECOND), vec![0], "the pointer came back");
    assert_eq!(idle.note_input(true, 902 * SECOND), Vec::<usize>::new(), "input during activity tells nothing");
    assert_eq!(idle.wake(1201 * SECOND), (vec![], vec![]));
    assert_eq!(idle.wake(1202 * SECOND), (vec![], vec![0]), "the next silence counts from the last input");
}

#[test]
fn events_that_are_not_input_do_not_end_the_silence() {
    let mut idle = Idle::new();
    idle.settle(vec![60 * SECOND], false, 0);
    assert_eq!(idle.wake(60 * SECOND).1, vec![0]);
    assert_eq!(idle.note_input(false, 61 * SECOND), Vec::<usize>::new());
    assert_eq!(idle.silence(61 * SECOND), 61 * SECOND);
}

#[test]
fn watches_of_different_lengths_are_independent() {
    let mut idle = Idle::new();
    idle.settle(vec![60 * SECOND, 300 * SECOND], false, 0);
    assert_eq!(idle.wake(60 * SECOND).1, vec![0]);
    assert_eq!(idle.wake(300 * SECOND).1, vec![1]);
    assert_eq!(idle.note_input(true, 300 * SECOND), vec![0, 1]);
    assert_eq!(idle.wake(361 * SECOND).1, vec![0]);
    assert_eq!(idle.note_input(true, 361 * SECOND), vec![0], "only the one reached ends");
}

#[test]
fn a_watch_declared_after_its_silence_was_reached_is_told_at_once() {
    let mut idle = Idle::new();
    idle.settle(Vec::new(), false, 120 * SECOND);
    idle.settle(vec![60 * SECOND], false, 120 * SECOND);
    assert_eq!(idle.wake(120 * SECOND).1, vec![0]);
}

#[test]
fn the_runtime_wakes_at_the_moment_a_watch_needs_and_not_before() {
    let mut idle = Idle::new();
    idle.settle(vec![300 * SECOND], false, 0);
    assert_eq!(idle.deadline(), Some(300 * SECOND), "one wake-up, at the threshold");
    idle.note_input(true, 7 * SECOND);
    idle.settle(vec![300 * SECOND], false, 7 * SECOND);
    assert_eq!(idle.deadline(), Some(307 * SECOND), "input moves it");
    assert_eq!(idle.wake(307 * SECOND).1, vec![0]);
    assert_eq!(idle.deadline(), None, "nothing is left to wake for while the silence goes on");
}

#[test]
fn a_watch_too_long_to_be_reached_never_wakes_the_loop() {
    let mut idle = Idle::new();
    idle.note_input(true, 7 * SECOND);
    idle.settle(vec![u64::MAX], false, 7 * SECOND);
    assert_eq!(idle.deadline(), None, "a silence that ends after the clock's last moment is never due");
    assert_eq!(idle.wake(3600 * SECOND).1, Vec::<usize>::new(), "and never told");
}

#[test]
fn a_view_that_reads_idleness_is_drawn_again_each_second_and_only_then() {
    let mut idle = Idle::new();
    idle.settle(Vec::new(), false, 0);
    assert_eq!(idle.deadline(), None, "a view that does not read it never wakes the loop");
    idle.settle(Vec::new(), true, 0);
    assert_eq!(idle.deadline(), Some(SECOND));
    idle.settle(Vec::new(), true, 1400 * MS);
    assert_eq!(idle.deadline(), Some(2 * SECOND), "the next whole second of silence");
    idle.note_input(true, 1500 * MS);
    idle.settle(Vec::new(), true, 1500 * MS);
    assert_eq!(idle.deadline(), Some(2500 * MS), "seconds count from the input");
}

#[test]
fn the_next_frame_of_a_view_that_reads_idleness_is_never_in_the_past() {
    let mut idle = Idle::new();
    let now = (u64::from(u32::MAX) + 10) * SECOND + 300 * MS;
    idle.settle(Vec::new(), true, now);
    assert_eq!(idle.deadline(), Some(now + 700 * MS), "the next whole second of silence");
}

#[test]
fn the_end_of_a_handoff_counts_as_input() {
    let mut idle = Idle::new();
    idle.settle(vec![60 * SECOND], false, 0);
    idle.handing_off();
    assert_eq!(idle.wake(600 * SECOND), (vec![], vec![]), "no silence was announced");
    assert_eq!(idle.deadline(), Some(660 * SECOND));
}

#[test]
fn a_watch_told_before_a_handoff_is_told_it_ended_after() {
    let mut idle = Idle::new();
    idle.settle(vec![60 * SECOND], false, 0);
    assert_eq!(idle.wake(60 * SECOND).1, vec![0]);
    idle.handing_off();
    assert_eq!(idle.wake(600 * SECOND), (vec![0], vec![]));
}

#[test]
fn every_kind_of_input_starts_the_silence_again() {
    for _ in 0..3 {
        let mut idle = Idle::new();
        assert_eq!(idle.silence(90 * SECOND), 90 * SECOND);
        idle.note_input(true, 90 * SECOND);
        assert_eq!(idle.silence(90 * SECOND), 0, "input starts the silence again");
        assert_eq!(idle.silence(90 * SECOND + 300 * MS), 300 * MS, "the next silence counts from it");
    }
}

#[test]
fn a_resize_a_message_and_a_runtime_event_are_not_input() {
    let mut idle = Idle::new();
    idle.note_input(false, 90 * SECOND);
    assert_eq!(idle.silence(90 * SECOND), 90 * SECOND, "what is not input leaves the silence alone");
}
