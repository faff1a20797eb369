use qframe::confirm::{
    field_first, fold, route, surface_answer, unlocked, used, Answer, Confirm, DialogInput, DialogRoute, Reply, SurfaceInput,
    WordGate,
};
use qframe::geometry::Rect;

#[test]
fn typed_words_match_the_turkish_way() {
    let word = Some("SİL".to_owned());
    for typed in ["sil", "SİL", "SIL", " Sil ", "sıl"] {
        assert!(unlocked(&word, typed), "{typed:?}");
    }
    assert!(unlocked(&Some("İPTAL".to_owned()), "iptal"));
    assert!(!unlocked(&word, "si"));
    assert!(!unlocked(&word, "silme"));
    assert!(unlocked(&None, "anything"), "without a word the button always works");
}

#[test]
fn folding_trims_and_lowers() {
    assert_eq!(fold("  İstanbul\t"), "istanbul");
    assert_eq!(fold("DIŞ"), "diş");
    assert_eq!(fold("   "), "");
    assert_eq!(fold("ÉTÉ"), "été");
}

#[test]
fn a_blank_word_asks_for_nothing() {
    let question = Confirm::new("Empty the trash?", 1).require_word("   ");
    assert_eq!(question.word(), &None);
    let question = Confirm::new("Empty the trash?", 1).require_word(" sil ");
    assert_eq!(question.word(), &Some(" sil ".to_owned()));
}

#[test]
fn answers_send_their_messages() {
    let plain = || Confirm::new("Remove web?", "remove").on_cancel("kept");
    assert_eq!(plain().into_answer(true, false), Some("remove"));
    assert_eq!(plain().into_answer(false, false), Some("kept"));
    assert_eq!(plain().into_answer(true, true), Some("remove"), "no alternative to stand for");
    assert_eq!(Confirm::new("Prune?", "prune").into_answer(false, false), None, "cancelling only closes");
    let recover = || Confirm::new("Recover the session?", "saved").on_cancel("discarded").alternative("Continue", "resumed");
    assert_eq!(recover().into_answer(true, true), Some("resumed"));
    assert_eq!(recover().into_answer(true, false), Some("saved"));
    assert_eq!(recover().into_answer(false, true), Some("discarded"));
}

#[test]
fn the_confirm_button_waits_for_the_word() {
    let question = Confirm::new("Empty the trash?", ()).require_word("SİL").danger();
    let mut gate = WordGate::new(&question);
    assert!(!gate.unlocked(), "each question starts empty");
    assert_eq!(gate.settle(Answer::Submit), None, "Enter does nothing before the word");
    assert_eq!(gate.settle(Answer::Confirm), None, "the disabled button never answers");
    assert_eq!(gate.settle(Answer::Alternative), Some(Reply::Alternative), "an alternative works at once");
    assert_eq!(gate.settle(Answer::Typed("sil".to_owned())), None);
    assert!(gate.unlocked());
    assert_eq!(gate.settle(Answer::Submit), Some(Reply::Confirmed));
    assert_eq!(gate.settle(Answer::Confirm), Some(Reply::Confirmed));
    assert_eq!(gate.settle(Answer::Cancel), Some(Reply::Cancelled));
}

#[test]
fn builders_keep_what_they_are_given() {
    let question = Confirm::new("Remove web?", 0).message("Its volumes go too.").confirm_label("Remove").cancel_label("Keep").dismissable(false);
    assert_eq!(question.title(), "Remove web?");
    let mut gate = WordGate::new(&question);
    assert!(gate.unlocked());
    assert_eq!(gate.settle(Answer::Confirm), Some(Reply::Confirmed));
}

/// A dialog with a field (1) above three buttons (2, 3, 4) on one row.
fn painted() -> (Vec<u64>, Vec<(u64, Rect)>) {
    let rects = vec![
        (1, Rect::new(2, 3, 30, 1)),
        (2, Rect::new(2, 5, 10, 1)),
        (3, Rect::new(13, 5, 10, 1)),
        (4, Rect::new(24, 5, 10, 1)),
    ];
    (vec![1, 2, 3, 4], rects)
}

#[test]
fn keys_and_pastes_go_to_the_focused_part() {
    let (parts, rects) = painted();
    let way = route(&parts, &rects, Some(3), None, DialogInput::Key);
    assert_eq!(way, DialogRoute { target: Some(3), rect: Rect::new(13, 5, 10, 1), pressed: None });
    assert_eq!(route(&parts, &rects, Some(1), Some(4), DialogInput::Paste).target, Some(1));
    assert_eq!(route(&parts, &rects, Some(1), Some(4), DialogInput::Paste).pressed, Some(4), "a paste leaves the press");
    assert_eq!(route(&parts, &rects, Some(9), None, DialogInput::Key).target, None, "focus elsewhere reaches no part");
    assert!(!used(DialogInput::Key, None));
    assert!(used(DialogInput::Key, Some(true)));
    assert!(!used(DialogInput::Key, Some(false)));
}

#[test]
fn a_press_goes_to_the_part_under_it_and_the_release_to_the_same_part() {
    let (parts, rects) = painted();
    let down = route(&parts, &rects, Some(1), None, DialogInput::Press { x: 14, y: 5 });
    assert_eq!(down, DialogRoute { target: Some(3), rect: Rect::new(13, 5, 10, 1), pressed: Some(3) });
    let up = route(&parts, &rects, Some(1), down.pressed, DialogInput::Pointer { x: 30, y: 5 });
    assert_eq!(up.target, Some(3), "released over another button, it still goes to the pressed one");
    assert_eq!(up.pressed, None);
    let missed = route(&parts, &rects, Some(1), None, DialogInput::Press { x: 12, y: 5 });
    assert_eq!(missed, DialogRoute { target: None, rect: Rect::new(0, 0, 0, 0), pressed: None }, "between two buttons");
    assert!(used(DialogInput::Press { x: 12, y: 5 }, None), "a press on the dimmed screen is swallowed");
    assert!(used(DialogInput::Pointer { x: 0, y: 0 }, Some(false)));
    assert!(!used(DialogInput::PointerOutside, None));
}

#[test]
fn a_release_without_a_press_reaches_nothing_and_leaving_reaches_nothing() {
    let (parts, rects) = painted();
    assert_eq!(route(&parts, &rects, Some(2), None, DialogInput::Pointer { x: 3, y: 5 }).target, None);
    let gone = route(&parts, &rects, Some(2), Some(2), DialogInput::PointerOutside);
    assert_eq!(gone, DialogRoute { target: None, rect: Rect::new(0, 0, 0, 0), pressed: Some(2) });
}

#[test]
fn the_first_part_painted_under_the_pointer_wins() {
    let parts = vec![5, 6];
    let rects = vec![(6, Rect::new(0, 0, 4, 4)), (5, Rect::new(2, 2, 4, 4)), (5, Rect::new(0, 0, 1, 1))];
    let way = route(&parts, &rects, None, None, DialogInput::Press { x: 3, y: 3 });
    assert_eq!(way.target, Some(5), "the field comes before the buttons");
    assert_eq!(way.rect, Rect::new(2, 2, 4, 4), "its first rectangle");
    assert_eq!(route(&parts, &rects, None, None, DialogInput::Press { x: 0, y: 0 }).target, Some(5));
    let unpainted = route(&[7], &rects, Some(7), None, DialogInput::Key);
    assert_eq!(unpainted.rect, Rect::new(0, 0, 0, 0), "a part that was not painted gets an empty rectangle");
}

#[test]
fn white_space_is_what_std_calls_white_space() {
    for code in (0u32..0x3100).chain([0x205f, 0x3000, 0xfeff, 0x180e]) {
        let Some(c) = char::from_u32(code) else { continue };
        let text = format!("{c}a{c}");
        assert_eq!(fold(&text) == "a", c.is_whitespace(), "U+{code:04X}");
    }
}

#[test]
fn esc_and_the_close_mark_cancel_only_a_dismissable_question() {
    assert_eq!(surface_answer(SurfaceInput::Escape, true), Some(Reply::Cancelled));
    assert_eq!(surface_answer(SurfaceInput::CloseMark, true), Some(Reply::Cancelled));
    assert_eq!(surface_answer(SurfaceInput::Escape, false), None);
    assert_eq!(surface_answer(SurfaceInput::CloseMark, false), None);
    assert_eq!(surface_answer(SurfaceInput::Other, true), None);
    let question = Confirm::new("Remove?", 1).dismissable(false);
    assert_eq!(question.surface_reply(SurfaceInput::Escape), None);
    assert_eq!(Confirm::new("Remove?", 1).surface_reply(SurfaceInput::Escape), Some(Reply::Cancelled), "dismissable by default");
}

#[test]
fn an_open_edit_menu_of_the_field_takes_keys_and_presses_first() {
    let rects = vec![(1, Rect::new(2, 3, 30, 1))];
    let way = field_first(Some(1), Some(1), &rects, None, DialogInput::Press { x: 40, y: 9 });
    assert_eq!(way, Some(DialogRoute { target: Some(1), rect: Rect::new(2, 3, 30, 1), pressed: Some(1) }));
    assert_eq!(field_first(Some(1), Some(1), &rects, Some(4), DialogInput::Key).map(|w| w.pressed), Some(Some(4)));
    assert_eq!(field_first(Some(1), Some(1), &rects, Some(4), DialogInput::Paste), None, "a paste is not the menu's");
    assert_eq!(field_first(Some(1), None, &rects, None, DialogInput::Key), None, "the menu is closed");
    assert_eq!(field_first(None, Some(1), &rects, None, DialogInput::Key), None, "no word, no field");
}
