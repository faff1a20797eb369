use qframe::focus::{
    apply_request, focus_named, move_focus, named_focusable, settle, FocusFacts, FocusRequest, FocusState,
};

/// A form: fields 1, 2 and 3 in a group 10, a button 4 beneath a modal layer; 1 and 2 in scope
/// 20, 3 and 4 in scope 21.
fn facts() -> FocusFacts {
    FocusFacts {
        focusable: vec![1, 2, 3, 4],
        reachable: vec![1, 2, 3],
        names: vec![(1, "name".to_owned()), (2, "mail".to_owned()), (3, "note".to_owned())],
        parents: vec![(1, 10), (2, 10), (3, 10)],
        scopes: vec![(1, 20), (2, 20), (3, 21), (4, 21)],
        painted: vec![1, 2, 3, 4, 10],
    }
}

#[test]
fn a_named_widget_gets_the_focus_and_an_unknown_name_waits() {
    let f = facts();
    assert_eq!(named_focusable(&f, "mail"), Some(2));
    assert_eq!(named_focusable(&f, "mai"), None);
    assert_eq!(focus_named(Some(1), None, &f, "mail"), (Some(2), None));
    assert_eq!(focus_named(Some(1), None, &f, "later"), (Some(1), Some("later".to_owned())));
}

#[test]
fn a_waiting_name_lands_once_a_frame_shows_its_widget() {
    let mut f = facts();
    let state = FocusState { focused: Some(1), pending: Some("later".to_owned()), memory: vec![], key_capture: None, pointer_capture: None };
    f.focusable.push(5);
    f.names.push((5, "later".to_owned()));
    let next = settle(state, &f);
    assert_eq!(next.focused, Some(5));
    assert_eq!(next.pending, None);
}

#[test]
fn focus_moves_round_the_reachable_widgets() {
    let f = facts();
    assert_eq!(move_focus(Some(1), &f, 1), Some(2));
    assert_eq!(move_focus(Some(3), &f, 1), Some(1), "round to the first");
    assert_eq!(move_focus(Some(1), &f, -1), Some(3), "round to the last");
    assert_eq!(move_focus(None, &f, 1), Some(1));
    assert_eq!(move_focus(None, &f, -1), Some(3));
    assert_eq!(move_focus(Some(4), &f, 1), Some(1), "a widget out of reach counts as none");
    assert_eq!(move_focus(Some(2), &f, -7), Some(1));
    let none = FocusFacts { reachable: vec![], ..facts() };
    assert_eq!(move_focus(Some(2), &none, 1), Some(2), "nothing to move to");
}

#[test]
fn a_request_lands_on_a_focusable_widget_or_inside_one() {
    let f = facts();
    assert_eq!(apply_request(Some(1), &f, Some(FocusRequest::Exact(3))), Some(3));
    assert_eq!(apply_request(Some(1), &f, Some(FocusRequest::Exact(10))), Some(1), "10 takes no focus");
    assert_eq!(apply_request(Some(2), &f, Some(FocusRequest::Within(10))), Some(2), "already inside");
    assert_eq!(apply_request(Some(4), &f, Some(FocusRequest::Within(10))), Some(1));
    assert_eq!(apply_request(Some(4), &f, None), Some(4));
}

#[test]
fn a_scope_remembers_its_focus_and_gives_it_back() {
    let f = facts();
    let state = FocusState { focused: Some(2), pending: None, memory: vec![], key_capture: Some(9), pointer_capture: Some(4) };
    let next = settle(state, &f);
    assert_eq!(next.memory, [(20, 2)]);
    assert_eq!(next.key_capture, None, "9 was not painted");
    assert_eq!(next.pointer_capture, Some(4));
    let gone = FocusFacts { focusable: vec![1, 3], ..facts() };
    let lost = settle(FocusState { focused: Some(2), ..next }, &gone);
    assert_eq!(lost.focused, None, "2 is gone and 20 remembers only 2");
    let back = settle(FocusState { focused: Some(9), ..lost }, &f);
    assert_eq!(back.focused, Some(2), "the remembered widget is back");
    let again = settle(FocusState { focused: Some(3), ..back }, &f);
    assert_eq!(again.memory, [(20, 2), (21, 3)]);
    let moved = settle(FocusState { focused: Some(1), ..again }, &f);
    assert_eq!(moved.memory, [(20, 1), (21, 3)], "a scope remembers its latest");
}
