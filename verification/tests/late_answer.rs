use qframe::late_answer::{late_from, KeyCode, KeyPress, LateAnswer, LATE};

/// The key events the input parser makes of `bytes` sent by a terminal.
fn keys(bytes: &str) -> Vec<KeyPress> {
    let mut events = Vec::new();
    let mut chars = bytes.chars();
    while let Some(c) = chars.next() {
        let key = match c {
            '\x1b' => KeyPress { code: chars.next().map_or(KeyCode::Other, KeyCode::Char), alt: true, control: false, others: false },
            c if c.is_uppercase() => KeyPress { code: KeyCode::Char(c), alt: false, control: false, others: true },
            c => KeyPress { code: KeyCode::Char(c), alt: false, control: false, others: false },
        };
        events.push(key);
    }
    events
}

/// What reaches the application of `events` read in one burst.
fn handled(late: &mut LateAnswer<KeyPress>, events: Vec<KeyPress>, now: u64) -> Vec<KeyPress> {
    let count = events.len();
    events.into_iter().enumerate().flat_map(|(index, event)| late.filter(event, Some(event), index + 1 < count, now)).collect()
}

const NOW: u64 = 1_000_000_000;

#[test]
fn a_late_kitty_answer_never_reaches_the_application() {
    let mut late = late_from(NOW);
    assert!(handled(&mut late, keys("\x1b_Gi=31;OK\x1b\\"), NOW).is_empty());
    let mut late = late_from(NOW);
    let refused = handled(&mut late, keys("\x1b_Gi=31;ENOTSUPPORTED:not here\x1b\\"), NOW);
    assert!(refused.is_empty(), "a refusal is an answer too: {refused:?}");
}

#[test]
fn a_late_kitty_ok_says_the_terminal_draws_kitty_pictures_once() {
    let mut late = late_from(NOW);
    assert!(!late.take_kitty(), "nothing heard yet");
    assert!(handled(&mut late, keys("\x1b_Gi=31;OK\x1b\\"), NOW).is_empty());
    assert!(late.take_kitty(), "the OK is heard");
    assert!(!late.take_kitty(), "and only once");
    let mut late = late_from(NOW);
    handled(&mut late, keys("\x1b_Gi=31;ENOTSUPPORTED:not here\x1b\\"), NOW);
    assert!(!late.take_kitty(), "a refusal is not kitty");
}

#[test]
fn keys_that_only_look_like_an_answer_are_handed_back() {
    let mut late = late_from(NOW);
    let typed = keys("\x1b_Gx");
    assert_eq!(handled(&mut late, typed.clone(), NOW), typed, "not image 31");
    let alone = keys("\x1b_");
    assert_eq!(handled(&mut late, alone.clone(), NOW), alone, "alt _ typed by hand arrives alone");
    let plain = keys("hello");
    assert_eq!(handled(&mut late, plain.clone(), NOW), plain);
}

#[test]
fn once_the_time_is_over_an_answer_is_input_again() {
    let mut late = late_from(NOW);
    let answer = keys("\x1b_Gi=31;OK\x1b\\");
    assert_eq!(handled(&mut late, answer.clone(), NOW + LATE), answer);
    let mut none = LateAnswer::default();
    assert_eq!(handled(&mut none, answer.clone(), NOW), answer, "a probe that finished expects nothing");
}

#[test]
fn after_an_answer_nothing_more_is_expected() {
    let mut late = late_from(NOW);
    assert!(handled(&mut late, keys("\x1b_Gi=31;OK\x1b\\"), NOW).is_empty());
    let again = keys("\x1b_Gi=31;OK\x1b\\");
    assert_eq!(handled(&mut late, again.clone(), NOW), again, "the one answer was heard");
}

#[test]
fn an_overlong_answer_is_handed_back() {
    let mut late = late_from(NOW);
    let long = format!("\x1b_Gi=31;{}\x1b\\", "x".repeat(300));
    let events = keys(&long);
    let out = handled(&mut late, events.clone(), NOW);
    assert_eq!(out, events, "past the limit the held keys go back, in order");
}

#[test]
fn events_that_are_no_keys_end_an_answer() {
    let mut late: LateAnswer<u32> = late_from(NOW);
    let underscore = KeyPress { code: KeyCode::Char('_'), alt: true, control: false, others: false };
    let g = KeyPress { code: KeyCode::Char('G'), alt: false, control: false, others: true };
    assert!(late.filter(1, Some(underscore), true, NOW).is_empty());
    assert!(late.filter(2, Some(g), true, NOW).is_empty());
    assert_eq!(late.filter(3, None, false, NOW), vec![1, 2, 3]);
}
