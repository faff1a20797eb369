use std::time::Duration;

use qframe::{FrameLimit, Pacing};

#[test]
fn the_default_draws_fewer_frames_over_a_remote_connection() {
    let limit = FrameLimit::default();
    assert_eq!(limit.frames_per_second(false), Some(60));
    assert_eq!(limit.frames_per_second(true), Some(20));
    assert_eq!(limit.gap(false).map(Duration::from_nanos), Some(Duration::from_nanos(16_666_666)));
    assert_eq!(limit.gap(true).map(Duration::from_nanos), Some(Duration::from_millis(50)));
}

#[test]
fn a_number_given_holds_on_every_connection_until_the_remote_one_is_given_too() {
    let same = FrameLimit::per_second(30);
    assert_eq!(same.frames_per_second(false), Some(30));
    assert_eq!(same.frames_per_second(true), Some(30));
    let quieter = same.remote(10);
    assert_eq!(quieter.frames_per_second(false), Some(30), "the local number stays");
    assert_eq!(quieter.frames_per_second(true), Some(10));
}

#[test]
fn no_limit_and_a_limit_of_zero_frames_both_allow_every_frame() {
    assert_eq!(FrameLimit::none().gap(false), None);
    assert_eq!(FrameLimit::none().gap(true), None);
    assert_eq!(FrameLimit::per_second(0).frames_per_second(false), None, "zero frames would draw nothing");
    assert_eq!(FrameLimit::default().remote(0).frames_per_second(true), None);
    assert_eq!(FrameLimit::default().remote(0).frames_per_second(false), Some(60), "only the remote one is lifted");
}

#[test]
fn a_frame_of_one_per_second_is_a_whole_second_apart() {
    assert_eq!(FrameLimit::per_second(1).gap(false), Some(1_000_000_000));
    assert_eq!(FrameLimit::per_second(7).gap(true), Some(142_857_142));
}

const MS: u64 = 1_000_000;

#[test]
fn the_first_frame_and_a_frame_answering_input_are_never_held() {
    let mut pacing = Pacing::new();
    let gap = FrameLimit::per_second(5).gap(false);
    assert!(pacing.frame_due(true, gap, 1000 * MS), "the first frame of a run");
    pacing.frame_drawn(1000 * MS);
    assert!(!pacing.frame_due(true, gap, 1001 * MS), "the next one waits for the gap");
    pacing.frame_is_urgent();
    assert!(pacing.frame_due(true, gap, 1001 * MS), "a key is answered at once");
    assert_eq!(pacing.frame_deadline(true, gap, 1001 * MS), None);
}

#[test]
fn a_held_frame_waits_exactly_the_rest_of_the_gap() {
    let mut pacing = Pacing::new();
    let gap = FrameLimit::per_second(5).gap(false);
    pacing.frame_drawn(1000 * MS);
    assert_eq!(pacing.frame_deadline(true, gap, 1080 * MS), Some(1200 * MS));
    assert!(!pacing.frame_due(true, gap, 1199 * MS), "not before the gap is over");
    assert!(pacing.frame_due(true, gap, 1200 * MS), "the latest state when it is");
    assert_eq!(pacing.frame_deadline(false, gap, 1080 * MS), None, "nothing wanted, nothing waits");
    assert!(!pacing.frame_due(false, None, 5000 * MS), "an unwanted frame is never drawn");
}

#[test]
fn a_frame_is_wanted_when_the_view_changed_or_its_moment_came() {
    assert!(Pacing::frame_wanted(true, None, 0));
    assert!(!Pacing::frame_wanted(false, None, 10));
    assert!(!Pacing::frame_wanted(false, Some(11), 10));
    assert!(Pacing::frame_wanted(false, Some(10), 10));
}

/// One simulated second of a program writing a line every millisecond, drawn the way the
/// terminal loop draws: a frame whenever one is due, after a first frame at zero.
fn frames_in_a_second(limit: FrameLimit) -> usize {
    let gap = limit.gap(false);
    let mut pacing = Pacing::new();
    pacing.frame_drawn(0);
    let mut frames = 0;
    for step in 1..=1000u64 {
        let now = step * MS;
        if pacing.frame_due(true, gap, now) {
            pacing.frame_drawn(now);
            frames += 1;
        }
    }
    frames
}

#[test]
fn a_program_writing_without_pause_is_drawn_at_the_limit_and_no_more() {
    assert_eq!(frames_in_a_second(FrameLimit::per_second(20)), 20, "20 frames a second");
    assert_eq!(frames_in_a_second(FrameLimit::per_second(10)), 10);
    assert!(frames_in_a_second(FrameLimit::default()) <= 60, "the default, on a local connection");
    assert_eq!(frames_in_a_second(FrameLimit::default()), 58);
}

#[test]
fn without_a_limit_every_wanted_frame_is_drawn() {
    assert_eq!(frames_in_a_second(FrameLimit::none()), 1000);
}

#[test]
fn the_frame_after_a_key_is_drawn_at_once_while_the_limit_holds_the_others_back() {
    let gap = FrameLimit::per_second(20).gap(false);
    let mut pacing = Pacing::new();
    pacing.frame_drawn(0);
    assert!(!pacing.frame_due(true, gap, MS), "a line the program wrote waits for the gap");
    pacing.frame_is_urgent();
    assert!(pacing.frame_due(true, gap, MS), "the character the user typed is echoed at once");
    pacing.frame_drawn(MS);
    assert!(!pacing.frame_due(true, gap, 2 * MS), "the limit counts from the frame just drawn");
    assert!(pacing.frame_due(true, gap, 51 * MS), "a gap after it");
}

#[test]
fn a_frame_built_between_two_events_is_not_a_drawn_frame() {
    let gap = FrameLimit::per_second(20).gap(false);
    let mut pacing = Pacing::new();
    pacing.frame_drawn(0);
    let built = pacing;
    assert!(built.frame_due(true, gap, 50 * MS), "the gap still counts from the frame drawn at zero");
    assert!(!built.frame_due(true, gap, 49 * MS), "and the limit still holds");
}

#[test]
fn the_loop_wakes_when_a_held_frame_may_be_drawn_and_not_while_nothing_waits() {
    let gap = FrameLimit::per_second(20).gap(false);
    let mut pacing = Pacing::new();
    pacing.frame_drawn(0);
    assert_eq!(pacing.frame_deadline(false, gap, MS), None, "nothing is waiting to be drawn");
    assert_eq!(pacing.frame_deadline(true, gap, MS), Some(50 * MS), "the rest of the gap");
    pacing.frame_is_urgent();
    assert_eq!(pacing.frame_deadline(true, gap, MS), None, "input is not waited for");
    pacing.frame_drawn(MS);
    assert_eq!(pacing.frame_deadline(false, gap, MS), None, "the frame was drawn");
}

#[test]
fn the_first_frame_of_a_run_is_never_held_back() {
    let gap = FrameLimit::per_second(1).gap(false);
    let mut pacing = Pacing::new();
    assert!(pacing.frame_due(true, gap, 0), "a second before the first frame would be an empty screen");
    pacing.frame_drawn(0);
    assert!(!pacing.frame_due(true, gap, 999 * MS));
    assert!(pacing.frame_due(true, gap, 1000 * MS));
}

#[test]
fn a_limit_is_never_zero_frames() {
    assert_eq!(FrameLimit::per_second(0).frames_per_second(false), None);
    assert_eq!(FrameLimit::default_limit().remote(0).frames_per_second(true), None);
    assert_eq!(FrameLimit::per_second(0).gap(true), None);
    assert_eq!(FrameLimit::none().remote(4).gap(true), Some(250_000_000));
}

#[test]
fn no_limit_is_a_limit_of_zero_frames() {
    assert_eq!(FrameLimit::none(), FrameLimit::per_second(0));
    assert_eq!(FrameLimit::default_limit().remote(0).remote(20), FrameLimit::default_limit());
}
