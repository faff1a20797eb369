use qframe::geometry::Rect;
use qframe::input::{
    intersect, key_step, outside_layers, pointer_step, region_in, within, Button, FrameFacts, KeyAction, KeyInput,
    KeyPhase, KeyState, MouseKind, PointerAction, PointerInput, PointerState, PressNext,
};
use qframe::selection::{CopyKind, Press, Selection};

/// A frame: a scroll view (2) holding text (3) beside its scrollbar (4), inside a window (1);
/// a title (5) kept out of selection; a dropdown layer (6) opened by a button (7).
fn frame() -> FrameFacts {
    FrameFacts {
        unselectable: vec![Rect::new(0, 0, 40, 1)],
        selectable: vec![(Rect::new(0, 0, 40, 20), 1), (Rect::new(2, 2, 20, 10), 2)],
        reachable: vec![1, 2, 3, 4, 5, 7],
        parents: vec![(2, 1), (3, 2), (4, 2), (5, 1), (7, 1)],
        focusable: vec![2, 7],
        rects: vec![
            (1, Rect::new(0, 0, 40, 20)),
            (2, Rect::new(2, 2, 20, 10)),
            (3, Rect::new(2, 2, 19, 10)),
            (4, Rect::new(21, 2, 1, 10)),
            (5, Rect::new(0, 0, 40, 1)),
            (7, Rect::new(30, 15, 6, 1)),
        ],
        layers: vec![],
        openers: vec![],
    }
}

fn press(x: i32, y: i32, count: u8) -> Press {
    Press { at: (x, y), time: 0, count }
}

fn state() -> PointerState {
    PointerState {
        selection: None,
        menu: None,
        last_press: None,
        swallow_release: false,
        pointer_capture: None,
        key_capture: None,
        pending: None,
    }
}

fn mouse(kind: MouseKind, x: i32, y: i32, hit: Option<u64>, now: u64) -> PointerInput {
    PointerInput::Mouse { kind, x, y, hit, toast: false, now }
}

#[test]
fn a_press_selects_in_the_innermost_region_narrowed_to_the_child_under_it() {
    let frame = frame();
    let selection = Selection::begin(&frame, press(5, 5, 1), Some(3)).expect("a region");
    assert_eq!(selection.owner(), 2, "the scroll view, not the window");
    assert!(selection.is_dragging());
    assert_eq!(region_in(&frame, 2, Some(3)), Some(Rect::new(2, 2, 19, 10)), "without the scrollbar");
    assert_eq!(region_in(&frame, 2, None), Some(Rect::new(2, 2, 20, 10)));
    let outer = Selection::begin(&frame, press(30, 5, 1), Some(1)).expect("the window's region");
    assert_eq!(outer.owner(), 1);
}

#[test]
fn no_selection_in_an_area_kept_out_or_out_of_reach() {
    let frame = frame();
    assert!(Selection::begin(&frame, press(5, 0, 1), Some(5)).is_none(), "the title is kept out");
    let mut modal = frame.clone_facts();
    modal.reachable = vec![7];
    assert!(Selection::begin(&modal, press(5, 5, 1), Some(3)).is_none(), "beneath a modal layer");
    let mut other = self::frame();
    other.parents.push((9, 1));
    assert!(Selection::begin(&other, press(5, 5, 1), Some(9)).is_some(), "a widget inside the window");
}

trait CloneFacts {
    fn clone_facts(&self) -> FrameFacts;
}

impl CloneFacts for FrameFacts {
    fn clone_facts(&self) -> FrameFacts {
        FrameFacts {
            unselectable: self.unselectable.clone(),
            selectable: self.selectable.clone(),
            reachable: self.reachable.clone(),
            parents: self.parents.clone(),
            focusable: self.focusable.clone(),
            rects: self.rects.clone(),
            layers: self.layers.clone(),
            openers: self.openers.clone(),
        }
    }
}

#[test]
fn widgets_nest_through_their_parents() {
    let parents = frame().parents;
    assert!(within(&parents, 3, 1));
    assert!(within(&parents, 3, 3));
    assert!(!within(&parents, 1, 3));
    assert!(!within(&parents, 4, 3));
    let looped = vec![(1, 2), (2, 1)];
    assert!(!within(&looped, 1, 3), "a loop of parents ends");
}

#[test]
fn rectangles_share_their_common_cells() {
    assert_eq!(intersect(Rect::new(0, 0, 10, 10), Rect::new(5, 3, 10, 10)), Rect::new(5, 3, 5, 7));
    assert_eq!(intersect(Rect::new(0, 0, 4, 4), Rect::new(6, 6, 2, 2)), Rect::new(6, 6, 0, 0));
}

#[test]
fn a_press_nobody_used_starts_a_selection_and_a_used_one_does_not() {
    let frame = frame();
    let (s, action) = pointer_step(state(), &frame, mouse(MouseKind::Down(Button::Left), 5, 5, Some(3), 0));
    assert_eq!(action, PointerAction::Press { leave: None, close: vec![], next: PressNext::Widgets(3) });
    assert!(s.selection.is_none(), "widgets first");
    let (used, _) = pointer_step(s, &frame, PointerInput::PressUsed(true));
    assert!(used.selection.is_none() && used.pending.is_none());
    let (s, _) = pointer_step(state(), &frame, mouse(MouseKind::Down(Button::Left), 5, 5, Some(3), 0));
    let (s, action) = pointer_step(s, &frame, PointerInput::PressUsed(false));
    assert_eq!(action, PointerAction::Nothing);
    assert_eq!(s.selection.as_ref().map(|sel| sel.owner()), Some(2));
    assert_eq!(s.last_press, Some(press(5, 5, 1)));
}

#[test]
fn a_right_press_nobody_used_starts_nothing() {
    let frame = frame();
    let (s, _) = pointer_step(state(), &frame, mouse(MouseKind::Down(Button::Right), 5, 5, Some(3), 0));
    let (s, _) = pointer_step(s, &frame, PointerInput::PressUsed(false));
    assert!(s.selection.is_none());
}

#[test]
fn a_double_press_selects_a_word_and_the_count_goes_round() {
    let frame = frame();
    let mut s = state();
    for (n, count) in [(0u64, 1u8), (1, 2), (2, 3), (3, 1)] {
        let (next, _) = pointer_step(s, &frame, mouse(MouseKind::Down(Button::Left), 5, 5, None, n * 100_000_000));
        s = next;
        assert_eq!(s.last_press.map(|p| p.count), Some(count));
        let (next, _) = pointer_step(s, &frame, mouse(MouseKind::Up(Button::Left), 5, 5, None, n * 100_000_000 + 1));
        s = next;
        assert_eq!(s.selection.is_some(), count != 1, "a plain press without a drag keeps nothing");
    }
}

#[test]
fn a_drag_selects_and_the_release_keeps_it_and_a_press_elsewhere_clears_it() {
    let frame = frame();
    let (s, _) = pointer_step(state(), &frame, mouse(MouseKind::Down(Button::Left), 5, 5, None, 0));
    let (s, _) = pointer_step(s, &frame, mouse(MouseKind::Drag(Button::Left), 50, 5, None, 1));
    let (s, action) = pointer_step(s, &frame, mouse(MouseKind::Up(Button::Left), 50, 5, None, 2));
    assert_eq!(action, PointerAction::Nothing);
    let kept = s.selection.as_ref().expect("kept");
    assert!(!kept.is_dragging());
    let (s, _) = pointer_step(s, &frame, mouse(MouseKind::Down(Button::Middle), 30, 15, Some(7), 3));
    assert!(s.selection.is_none(), "a press elsewhere clears it");
}

#[test]
fn a_press_outside_a_layer_closes_it_and_one_on_its_opener_goes_no_further() {
    let mut frame = frame();
    frame.layers = vec![(6, false)];
    frame.openers = vec![(6, Some(7))];
    assert_eq!(outside_layers(&frame, Some(3)), (vec![6], false));
    assert_eq!(outside_layers(&frame, Some(7)), (vec![6], true));
    let (s, action) = pointer_step(state(), &frame, mouse(MouseKind::Down(Button::Left), 31, 15, Some(7), 0));
    assert_eq!(action, PointerAction::Press { leave: None, close: vec![6], next: PressNext::Stop });
    assert!(s.swallow_release);
    let (s, action) = pointer_step(s, &frame, mouse(MouseKind::Up(Button::Left), 31, 15, Some(7), 1));
    assert_eq!(action, PointerAction::Nothing, "its release is dropped");
    assert!(!s.swallow_release);
    frame.layers = vec![(6, false), (8, true)];
    assert_eq!(outside_layers(&frame, Some(3)), (vec![], false), "a modal layer stops the walk");
}

#[test]
fn drags_go_to_the_widget_holding_the_pointer_until_the_release() {
    let frame = frame();
    let mut s = state();
    s.pointer_capture = Some(4);
    s.key_capture = Some(7);
    let (s, action) = pointer_step(s, &frame, mouse(MouseKind::Drag(Button::Left), 5, 5, Some(3), 0));
    assert_eq!(action, PointerAction::ToWidget(4));
    let (s, action) = pointer_step(s, &frame, mouse(MouseKind::Up(Button::Left), 5, 5, Some(3), 1));
    assert_eq!(action, PointerAction::ToWidget(4));
    assert_eq!(s.pointer_capture, None);
    let (s, action) = pointer_step(s, &frame, mouse(MouseKind::ScrollDown, 5, 5, Some(3), 2));
    assert_eq!(action, PointerAction::ToAncestry(3));
    let (_, action) = pointer_step(s, &frame, mouse(MouseKind::Moved, 5, 5, Some(3), 3));
    assert_eq!(action, PointerAction::Moves(3));
}

#[test]
fn a_press_leaves_the_widget_holding_the_keys_and_a_toast_leaves_everything() {
    let frame = frame();
    let mut s = state();
    s.key_capture = Some(7);
    let (s, action) = pointer_step(s, &frame, mouse(MouseKind::Down(Button::Left), 5, 5, Some(3), 0));
    assert_eq!(action, PointerAction::Press { leave: Some(7), close: vec![], next: PressNext::Widgets(3) });
    let toast = PointerInput::Mouse { kind: MouseKind::Down(Button::Left), x: 1, y: 19, hit: Some(3), toast: true, now: 1 };
    let (s, action) = pointer_step(s, &frame, toast);
    assert_eq!(action, PointerAction::Toast { leave: Some(7), close: vec![] });
    assert!(s.swallow_release);
}

fn keys(selection: Option<Selection>) -> KeyState {
    KeyState {
        selection,
        menu_open: false,
        last_activation: None,
        key_capture: None,
        focused: Some(3),
        top_layer: Some(6),
        phase: KeyPhase::Idle,
    }
}

fn key(activation: Option<u32>, copy: bool, escape: bool, now: u64) -> KeyInput {
    KeyInput::Key { release: false, repeat: false, activation, copy, escape, now }
}

#[test]
fn the_copy_key_copies_clean_and_any_other_key_clears_the_selection() {
    let frame = frame();
    let selection = Selection::begin(&frame, press(5, 5, 2), Some(3));
    let (s, action) = key_step(keys(selection), key(None, true, false, 0));
    assert_eq!(action, KeyAction::Nothing);
    assert_eq!(s.selection.as_ref().and_then(|sel| sel.copy_pending), Some(CopyKind::Clean));
    let (s, action) = key_step(s, key(None, false, false, 1));
    assert!(s.selection.is_none());
    assert_eq!(action, KeyAction::Targets(Some(3)));
}

#[test]
fn a_key_goes_to_the_focus_then_an_escape_to_the_top_layer_then_listeners_then_the_keymap() {
    let (s, action) = key_step(keys(None), key(None, false, true, 0));
    assert_eq!(action, KeyAction::Targets(Some(3)));
    let (s, action) = key_step(s, KeyInput::Used(false));
    assert_eq!(action, KeyAction::Layer(6));
    let (s, action) = key_step(s, KeyInput::Used(false));
    assert_eq!(action, KeyAction::Listeners);
    let (s, action) = key_step(s, KeyInput::Used(false));
    assert_eq!(action, KeyAction::RunAction);
    assert_eq!(s.phase, KeyPhase::Idle);
    let (s, _) = key_step(s, key(None, false, false, 1));
    let (_, action) = key_step(s, KeyInput::Used(true));
    assert_eq!(action, KeyAction::Nothing, "a widget used it");
}

#[test]
fn a_widget_holding_the_keys_gets_them_alone() {
    let mut s = keys(None);
    s.key_capture = Some(7);
    let (s, action) = key_step(s, key(None, false, true, 0));
    assert_eq!(action, KeyAction::Targets(Some(7)));
    let (_, action) = key_step(s, KeyInput::Used(false));
    assert_eq!(action, KeyAction::Nothing);
}

#[test]
fn a_held_enter_reaches_only_the_listeners_and_a_release_too() {
    let (s, action) = key_step(keys(None), key(Some(13), false, false, 0));
    assert_eq!(action, KeyAction::Targets(Some(3)));
    let (s, _) = key_step(s, KeyInput::Used(true));
    let (s, action) = key_step(s, key(Some(13), false, false, 50_000_000));
    assert_eq!(action, KeyAction::Listeners, "again within the window: held");
    let (s, action) = key_step(s, key(Some(13), false, false, 500_000_000));
    assert_eq!(action, KeyAction::Targets(Some(3)));
    let release = KeyInput::Key { release: true, repeat: false, activation: None, copy: false, escape: false, now: 0 };
    let (_, action) = key_step(s, release);
    assert_eq!(action, KeyAction::Listeners);
}
