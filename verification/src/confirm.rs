//! "Are you sure?" questions: what a question asks, when its confirm button works, and which
//! message each answer sends.
//!
//! A question has a title, an optional message, and the messages for its answers: confirming
//! sends one, cancelling may send another, and an optional third way between the two sends its
//! own. [`Confirm::require_word`] asks the user to type a word before the confirm button works.
//! Matching ignores spaces around the text and case, the Turkish way included: `İ`, `I`, `ı` and
//! `i` are all the same letter.

use vstd::prelude::*;

use crate::geometry::Rect;
use crate::text::{
    all_white, chars_of, lemma_trim_end_skips_white, lemma_trim_start_keeps_tail, lemma_trim_start_skips_white,
    push_char, trim, trim_start, trimmed,
};

verus! {

/// The lower case of `c`, as `char::to_lowercase` maps it.
pub uninterp spec fn lower_case(c: char) -> Seq<char>;

/// The characters of the lower case of `c`.
///
/// Calls `char::to_lowercase` and collects what it yields; its contract claims only that they
/// are [`lower_case`] of `c`, a function of the character alone.
#[verifier::external_body]
fn to_lowercase(c: char) -> (lower: Vec<char>)
    ensures
        lower@ == lower_case(c),
{
    c.to_lowercase().collect()
}

/// How `c` is compared: `İ`, `I`, `ı` and `i` as `i`, anything else in lower case.
pub open spec fn fold_char(c: char) -> Seq<char> {
    if c == 'İ' || c == 'I' || c == 'ı' || c == 'i' {
        seq!['i']
    } else {
        lower_case(c)
    }
}

/// The characters of `s`, each folded.
pub open spec fn fold_chars(s: Seq<char>) -> Seq<char>
    decreases s.len(),
{
    if s.len() == 0 {
        Seq::empty()
    } else {
        fold_chars(s.drop_last()) + fold_char(s.last())
    }
}

/// `text` for comparing typed words: without surrounding spaces, folded.
pub open spec fn folded(text: Seq<char>) -> Seq<char> {
    fold_chars(trimmed(text))
}

/// Whether `typed` unlocks the confirm button of a question asking for `word`.
pub open spec fn unlocks(word: Option<Seq<char>>, typed: Seq<char>) -> bool {
    match word {
        Some(w) => folded(w) == folded(typed),
        None => true,
    }
}

/// The text of an optional string.
pub open spec fn text_of(text: Option<String>) -> Option<Seq<char>> {
    match text {
        Some(t) => Some(t@),
        None => None,
    }
}

/// `text` for comparing typed words: without surrounding spaces, in lower case, with `İ`, `I`,
/// `ı` and `i` all folded to `i`. A plain lower-casing would turn `İ` into `i` and a combining
/// dot, and keep `ı` apart from `i`.
pub fn fold(text: &str) -> (out: String)
    ensures
        out@ == folded(text@),
{
    let chars = chars_of(text);
    let inner = trim(&chars);
    let mut out = String::new();
    let mut i: usize = 0;
    while i < inner.len()
        invariant
            i <= inner@.len(),
            out@ == fold_chars(inner@.take(i as int)),
        decreases inner@.len() - i,
    {
        let c = inner[i];
        assert(inner@.take(i + 1).drop_last() =~= inner@.take(i as int));
        if c == 'İ' || c == 'I' || c == 'ı' || c == 'i' {
            push_char(&mut out, 'i');
            assert(out@ =~= fold_chars(inner@.take(i as int)) + seq!['i']);
        } else {
            let lower = to_lowercase(c);
            let ghost before = out@;
            let mut j: usize = 0;
            while j < lower.len()
                invariant
                    j <= lower@.len(),
                    out@ == before + lower@.take(j as int),
                decreases lower@.len() - j,
            {
                push_char(&mut out, lower[j]);
                assert(lower@.take(j + 1) =~= lower@.take(j as int).push(lower@[j as int]));
                assert(out@ =~= before + lower@.take(j + 1));
                j = j + 1;
            }
            assert(lower@.take(j as int) =~= lower@);
        }
        i = i + 1;
    }
    assert(inner@.take(i as int) =~= inner@);
    out
}

/// Whether the confirm button of a question asking for `word` works with `typed` in the field:
/// always without a word, and once the folded texts are the same.
pub fn unlocked(word: &Option<String>, typed: &str) -> (open: bool)
    ensures
        open == unlocks(text_of(*word), typed@),
{
    match word {
        Some(w) => {
            let want = fold(w.as_str());
            let have = fold(typed);
            want == have
        },
        None => true,
    }
}

/// `word` when it is not blank.
fn word_if_any(word: &str) -> (kept: Option<String>)
    ensures
        text_of(kept) == (if trimmed(word@).len() == 0 { None } else { Some(word@) }),
{
    let chars = chars_of(word);
    let inner = trim(&chars);
    if inner.len() == 0 {
        None
    } else {
        Some(word.to_owned())
    }
}

/// A question: a title, an optional message, and the messages for the answers.
pub struct Confirm<Msg> {
    title: String,
    message: Option<String>,
    confirm_label: Option<String>,
    cancel_label: Option<String>,
    danger: bool,
    dismissable: bool,
    on_confirm: Msg,
    on_cancel: Option<Msg>,
    alternative: Option<(String, Msg)>,
    /// The word the user types to unlock the confirm button.
    word: Option<String>,
}

/// What a question holds.
pub struct ConfirmView<Msg> {
    pub title: Seq<char>,
    pub message: Option<Seq<char>>,
    pub confirm_label: Option<Seq<char>>,
    pub cancel_label: Option<Seq<char>>,
    pub danger: bool,
    pub dismissable: bool,
    pub on_confirm: Msg,
    pub on_cancel: Option<Msg>,
    pub alternative: Option<(Seq<char>, Msg)>,
    pub word: Option<Seq<char>>,
}

impl<Msg> View for Confirm<Msg> {
    type V = ConfirmView<Msg>;

    closed spec fn view(&self) -> ConfirmView<Msg> {
        ConfirmView {
            title: self.title@,
            message: text_of(self.message),
            confirm_label: text_of(self.confirm_label),
            cancel_label: text_of(self.cancel_label),
            danger: self.danger,
            dismissable: self.dismissable,
            on_confirm: self.on_confirm,
            on_cancel: self.on_cancel,
            alternative: match self.alternative {
                Some((label, message)) => Some((label@, message)),
                None => None,
            },
            word: text_of(self.word),
        }
    }
}

impl<Msg> Confirm<Msg> {
    /// Asks `title`; confirming sends `on_confirm`. Dismissable, with no message, no labels of
    /// its own, no cancel message, no alternative and no word.
    pub fn new(title: &str, on_confirm: Msg) -> (question: Self)
        ensures
            question@ == (ConfirmView {
                title: title@,
                message: None,
                confirm_label: None,
                cancel_label: None,
                danger: false,
                dismissable: true,
                on_confirm: on_confirm,
                on_cancel: None,
                alternative: None,
                word: None,
            }),
    {
        Confirm {
            title: title.to_owned(),
            message: None,
            confirm_label: None,
            cancel_label: None,
            danger: false,
            dismissable: true,
            on_confirm,
            on_cancel: None,
            alternative: None,
            word: None,
        }
    }

    /// Explains the consequences below the title.
    pub fn message(self, message: &str) -> (question: Self)
        ensures
            question@ == (ConfirmView { message: Some(message@), ..self@ }),
    {
        Confirm { message: Some(message.to_owned()), ..self }
    }

    /// Marks the question as destructive.
    pub fn danger(self) -> (question: Self)
        ensures
            question@ == (ConfirmView { danger: true, ..self@ }),
    {
        Confirm { danger: true, ..self }
    }

    /// Whether Esc and the close mark cancel the question; `true` by default.
    pub fn dismissable(self, dismissable: bool) -> (question: Self)
        ensures
            question@ == (ConfirmView { dismissable: dismissable, ..self@ }),
    {
        Confirm { dismissable, ..self }
    }

    /// The confirm button's label, e.g. the action's own verb: "Remove".
    pub fn confirm_label(self, label: &str) -> (question: Self)
        ensures
            question@ == (ConfirmView { confirm_label: Some(label@), ..self@ }),
    {
        Confirm { confirm_label: Some(label.to_owned()), ..self }
    }

    /// The cancel button's label.
    pub fn cancel_label(self, label: &str) -> (question: Self)
        ensures
            question@ == (ConfirmView { cancel_label: Some(label@), ..self@ }),
    {
        Confirm { cancel_label: Some(label.to_owned()), ..self }
    }

    /// The message sent when the question is cancelled; without it cancelling only closes the
    /// dialog.
    pub fn on_cancel(self, message: Msg) -> (question: Self)
        ensures
            question@ == (ConfirmView { on_cancel: Some(message), ..self@ }),
    {
        Confirm { on_cancel: Some(message), ..self }
    }

    /// A third answer between Cancel and the confirm button: a button labelled `label` that sends
    /// `message`.
    pub fn alternative(self, label: &str, message: Msg) -> (question: Self)
        ensures
            question@ == (ConfirmView { alternative: Some((label@, message)), ..self@ }),
    {
        Confirm { alternative: Some((label.to_owned(), message)), ..self }
    }

    /// Asks the user to type `word` before confirming. A blank word asks for nothing and leaves
    /// the question as it is without this option.
    pub fn require_word(self, word: &str) -> (question: Self)
        ensures
            question@ == (ConfirmView {
                word: if trimmed(word@).len() == 0 { None } else { Some(word@) },
                ..self@
            }),
    {
        Confirm { word: word_if_any(word), ..self }
    }

    /// The title.
    pub fn title(&self) -> (title: &str)
        ensures
            title@ == self@.title,
    {
        self.title.as_str()
    }

    /// What the dialog's surface answers for `input`: Esc and the close mark cancel this
    /// question exactly when it is dismissable.
    pub fn surface_reply(&self, input: SurfaceInput) -> (reply: Option<Reply>)
        ensures
            reply == (if self@.dismissable && (input is Escape || input is CloseMark) {
                Some(Reply::Cancelled)
            } else {
                None
            }),
    {
        surface_answer(input, self.dismissable)
    }

    /// The word the user types to unlock the confirm button, if any.
    pub fn word(&self) -> (word: &Option<String>)
        ensures
            text_of(*word) == self@.word,
    {
        &self.word
    }

    /// The message for an answer: when `confirmed`, the alternative's if the dialog reported it
    /// chose the alternative and there is one, the confirm message otherwise; when cancelled, the
    /// cancel message, if any.
    pub fn into_answer(self, confirmed: bool, alternative_chosen: bool) -> (message: Option<Msg>)
        ensures
            message == (if confirmed {
                match self@.alternative {
                    Some((_, alternative)) if alternative_chosen => Some(alternative),
                    _ => Some(self@.on_confirm),
                }
            } else {
                self@.on_cancel
            }),
    {
        match self.alternative {
            Some((_, message)) if confirmed && alternative_chosen => Some(message),
            _ => {
                if confirmed {
                    Some(self.on_confirm)
                } else {
                    self.on_cancel
                }
            },
        }
    }
}

/// The dialog's answers: its own buttons and the word's field.
#[derive(Debug, PartialEq, Eq)]
pub enum Answer {
    Cancel,
    Alternative,
    Confirm,
    /// The field's text after an edit.
    Typed(String),
    /// Enter in the field.
    Submit,
}

/// How the question was answered.
#[derive(Debug, Clone, Copy, PartialEq, Eq, Structural)]
pub enum Reply {
    /// Confirmed with the confirm button, or Enter in an unlocked field.
    Confirmed,
    /// The alternative was chosen: a confirmation that stands for the alternative.
    Alternative,
    /// Cancelled.
    Cancelled,
}

/// What the dialog of a question keeps between events: the word it asks for and the text typed
/// so far, empty when the question opens.
pub struct WordGate {
    word: Option<String>,
    typed: String,
}

impl WordGate {
    /// The word asked for.
    pub closed spec fn word_view(&self) -> Option<Seq<char>> {
        text_of(self.word)
    }

    /// The text typed so far.
    pub closed spec fn typed_view(&self) -> Seq<char> {
        self.typed@
    }

    /// The word of `confirm` and an empty field.
    pub fn new<Msg>(confirm: &Confirm<Msg>) -> (gate: Self)
        ensures
            gate.word_view() == confirm@.word,
            gate.typed_view() == Seq::<char>::empty(),
    {
        let word = match confirm.word() {
            Some(w) => Some(w.clone()),
            None => None,
        };
        WordGate { word, typed: String::new() }
    }

    /// Whether the confirm button works now.
    pub fn unlocked(&self) -> (open: bool)
        ensures
            open == unlocks(self.word_view(), self.typed_view()),
    {
        unlocked(&self.word, self.typed.as_str())
    }

    /// Acts on one answer of the dialog: an edit keeps the text, Enter and the confirm button
    /// confirm only while unlocked, the alternative works at once, Cancel cancels.
    pub fn settle(&mut self, answer: Answer) -> (reply: Option<Reply>)
        ensures
            final(self).word_view() == old(self).word_view(),
            match answer {
                Answer::Typed(text) => final(self).typed_view() == text@ && reply is None,
                Answer::Submit | Answer::Confirm => final(self).typed_view() == old(self).typed_view()
                    && reply == (if unlocks(old(self).word_view(), old(self).typed_view()) {
                        Some(Reply::Confirmed)
                    } else {
                        None
                    }),
                Answer::Alternative => final(self).typed_view() == old(self).typed_view() && reply
                    == Some(Reply::Alternative),
                Answer::Cancel => final(self).typed_view() == old(self).typed_view() && reply == Some(
                    Reply::Cancelled,
                ),
            },
    {
        match answer {
            Answer::Typed(text) => {
                self.typed = text;
                None
            },
            Answer::Submit | Answer::Confirm => {
                if self.unlocked() {
                    Some(Reply::Confirmed)
                } else {
                    None
                }
            },
            Answer::Alternative => Some(Reply::Alternative),
            Answer::Cancel => Some(Reply::Cancelled),
        }
    }
}

/// An input of the dialog of a question. An open edit menu of the word's field takes keys and
/// pointer input first ([`field_first`]); what it leaves goes to the dialog's surface, where Esc
/// and the close mark cancel a dismissable question ([`surface_answer`]); the rest is handed on to
/// one of the dialog's parts, the word's field and the answer buttons ([`route`]).
#[derive(Debug, Clone, Copy, PartialEq, Eq, Structural)]
pub enum DialogInput {
    /// A key.
    Key,
    /// Pasted text.
    Paste,
    /// The pointer went down at this column and row.
    Press { x: i32, y: i32 },
    /// Any other pointer input at this column and row: a release, a drag, a move, the wheel.
    Pointer { x: i32, y: i32 },
    /// The pointer left the terminal.
    PointerOutside,
}

/// Where an input goes within the dialog.
#[derive(Debug, Clone, Copy, PartialEq, Eq, Structural)]
pub struct DialogRoute {
    /// The part it is handed to, if any.
    pub target: Option<u64>,
    /// Where that part was painted, or an empty rectangle at the origin when it was not.
    pub rect: Rect,
    /// The part that took the pointer down, remembered until the next pointer input.
    pub pressed: Option<u64>,
}

/// The first of `parts` for which `wanted` holds.
pub open spec fn first_of(parts: Seq<u64>, wanted: spec_fn(u64) -> bool) -> Option<u64>
    decreases parts.len(),
{
    if parts.len() == 0 {
        None
    } else if wanted(parts[0]) {
        Some(parts[0])
    } else {
        first_of(parts.drop_first(), wanted)
    }
}

/// Whether part `id` was painted over the cell at `x`, `y`.
pub open spec fn painted_over(rects: Seq<(u64, Rect)>, id: u64, x: i32, y: i32) -> bool {
    exists|i: int| 0 <= i < rects.len() && rects[i].0 == id && (#[trigger] rects[i]).1.covers(x as int, y as int)
}

/// Where part `id` was painted: its first rectangle, or an empty one at the origin.
pub open spec fn rect_of(rects: Seq<(u64, Rect)>, id: u64) -> Rect
    decreases rects.len(),
{
    if rects.len() == 0 {
        Rect { x: 0, y: 0, width: 0, height: 0 }
    } else if rects[0].0 == id {
        rects[0].1
    } else {
        rect_of(rects.drop_first(), id)
    }
}

/// The part `input` is handed to: keys and pastes to the focused part, a press to the first part
/// painted under it, any other pointer input to the part that took the press, and nothing when
/// the pointer left. `parts` are in the dialog's order: the word's field first, then the buttons.
pub open spec fn routed_to(parts: Seq<u64>, rects: Seq<(u64, Rect)>, focused: Option<u64>, pressed: Option<u64>, input: DialogInput) -> Option<u64> {
    match input {
        DialogInput::Key | DialogInput::Paste => first_of(parts, |p: u64| focused == Some(p)),
        DialogInput::Press { x, y } => first_of(parts, |p: u64| painted_over(rects, p, x, y)),
        DialogInput::Pointer { .. } => first_of(parts, |p: u64| pressed == Some(p)),
        DialogInput::PointerOutside => None,
    }
}

/// Whether `input` comes from the pointer.
pub open spec fn from_pointer(input: DialogInput) -> bool {
    input is Press || input is Pointer
}

/// The part the pointer went down on, after `input` went to `target`: the target of a press,
/// nothing after any other pointer input that reached a part, and as it was otherwise.
pub open spec fn pressed_after(input: DialogInput, target: Option<u64>, pressed: Option<u64>) -> Option<u64> {
    match target {
        Some(part) => if input is Press {
            Some(part)
        } else if input is Pointer {
            None
        } else {
            pressed
        },
        None => pressed,
    }
}

/// The first of `parts` that is `wanted`.
fn first_equal(parts: &[u64], wanted: Option<u64>) -> (found: Option<u64>)
    ensures
        found == first_of(parts@, |p: u64| wanted == Some(p)),
{
    let ghost pred = |p: u64| wanted == Some(p);
    let mut i: usize = 0;
    assert(parts@.skip(0) =~= parts@);
    while i < parts.len()
        invariant
            i <= parts@.len(),
            pred == (|p: u64| wanted == Some(p)),
            first_of(parts@, pred) == first_of(parts@.skip(i as int), pred),
        decreases parts@.len() - i,
    {
        proof {
            assert(parts@.skip(i as int).drop_first() =~= parts@.skip(i + 1));
            assert(parts@.skip(i as int)[0] == parts@[i as int]);
        }
        if wanted == Some(parts[i]) {
            return Some(parts[i]);
        }
        i = i + 1;
    }
    assert(parts@.skip(i as int).len() == 0);
    None
}

/// Whether part `id` was painted over the cell at `x`, `y`.
fn is_painted_over(rects: &[(u64, Rect)], id: u64, x: i32, y: i32) -> (over: bool)
    ensures
        over == painted_over(rects@, id, x, y),
{
    let mut i: usize = 0;
    while i < rects.len()
        invariant
            i <= rects@.len(),
            forall|j: int| 0 <= j < i ==> !(rects@[j].0 == id && (#[trigger] rects@[j]).1.covers(x as int, y as int)),
        decreases rects@.len() - i,
    {
        if rects[i].0 == id && rects[i].1.contains(x, y) {
            return true;
        }
        i = i + 1;
    }
    false
}

/// The first of `parts` painted over the cell at `x`, `y`.
fn first_painted_over(parts: &[u64], rects: &[(u64, Rect)], x: i32, y: i32) -> (found: Option<u64>)
    ensures
        found == first_of(parts@, |p: u64| painted_over(rects@, p, x, y)),
{
    let ghost pred = |p: u64| painted_over(rects@, p, x, y);
    let mut i: usize = 0;
    assert(parts@.skip(0) =~= parts@);
    while i < parts.len()
        invariant
            i <= parts@.len(),
            pred == (|p: u64| painted_over(rects@, p, x, y)),
            first_of(parts@, pred) == first_of(parts@.skip(i as int), pred),
        decreases parts@.len() - i,
    {
        proof {
            assert(parts@.skip(i as int).drop_first() =~= parts@.skip(i + 1));
            assert(parts@.skip(i as int)[0] == parts@[i as int]);
        }
        if is_painted_over(rects, parts[i], x, y) {
            return Some(parts[i]);
        }
        i = i + 1;
    }
    assert(parts@.skip(i as int).len() == 0);
    None
}

/// Where part `id` was painted.
fn find_rect(rects: &[(u64, Rect)], id: u64) -> (rect: Rect)
    ensures
        rect == rect_of(rects@, id),
{
    let mut i: usize = 0;
    assert(rects@.skip(0) =~= rects@);
    while i < rects.len()
        invariant
            i <= rects@.len(),
            rect_of(rects@, id) == rect_of(rects@.skip(i as int), id),
        decreases rects@.len() - i,
    {
        proof {
            assert(rects@.skip(i as int).drop_first() =~= rects@.skip(i + 1));
            assert(rects@.skip(i as int)[0] == rects@[i as int]);
        }
        if rects[i].0 == id {
            return rects[i].1;
        }
        i = i + 1;
    }
    assert(rects@.skip(i as int).len() == 0);
    Rect { x: 0, y: 0, width: 0, height: 0 }
}

/// Where `input` goes within the dialog of a question, given its parts in order (the word's
/// field first, then the buttons), where they were painted, the focused part and the part that
/// took the pointer down.
pub fn route(parts: &[u64], rects: &[(u64, Rect)], focused: Option<u64>, pressed: Option<u64>, input: DialogInput) -> (way: DialogRoute)
    ensures
        way.target == routed_to(parts@, rects@, focused, pressed, input),
        way.target matches Some(part) ==> way.rect == rect_of(rects@, part),
        way.target is None ==> way.rect == (Rect { x: 0, y: 0, width: 0, height: 0 }),
        way.pressed == pressed_after(input, way.target, pressed),
{
    let target = match input {
        DialogInput::Key | DialogInput::Paste => first_equal(parts, focused),
        DialogInput::Press { x, y } => first_painted_over(parts, rects, x, y),
        DialogInput::Pointer { .. } => first_equal(parts, pressed),
        DialogInput::PointerOutside => None,
    };
    match target {
        Some(part) => {
            let after = match input {
                DialogInput::Press { .. } => Some(part),
                DialogInput::Pointer { .. } => None,
                _ => pressed,
            };
            DialogRoute { target, rect: find_rect(rects, part), pressed: after }
        },
        None => DialogRoute { target, rect: Rect { x: 0, y: 0, width: 0, height: 0 }, pressed },
    }
}

/// Whether the dialog used `input`, given whether the part it reached handled it (`None`: it
/// reached no part): pointer input is always used, so nothing behind the dimmed screen gets it.
pub fn used(input: DialogInput, handled: Option<bool>) -> (taken: bool)
    ensures
        taken == (from_pointer(input) || handled == Some(true)),
{
    let pointer = match input {
        DialogInput::Press { .. } | DialogInput::Pointer { .. } => true,
        _ => false,
    };
    match handled {
        Some(h) => h || pointer,
        None => pointer,
    }
}

/// What the dialog's own surface makes of an input: Esc, a press on the close mark, or anything
/// else.
#[derive(Debug, Clone, Copy, PartialEq, Eq, Structural)]
pub enum SurfaceInput {
    /// The Esc key.
    Escape,
    /// A press on the close mark.
    CloseMark,
    /// Anything else.
    Other,
}

/// The reply of the dialog's surface: Esc and the close mark cancel the question exactly when
/// it is dismissable; nothing else is the surface's to answer.
pub fn surface_answer(input: SurfaceInput, dismissable: bool) -> (reply: Option<Reply>)
    ensures
        reply == (if dismissable && (input is Escape || input is CloseMark) {
            Some(Reply::Cancelled)
        } else {
            None
        }),
{
    match input {
        SurfaceInput::Escape | SurfaceInput::CloseMark => {
            if dismissable {
                Some(Reply::Cancelled)
            } else {
                None
            }
        },
        SurfaceInput::Other => None,
    }
}

/// Whether an open edit menu of the word's field takes `input` before anything else: the field
/// holds the keys, and the input is a key or from the pointer.
pub open spec fn field_takes(field: Option<u64>, key_capture: Option<u64>, input: DialogInput) -> bool {
    field is Some && key_capture == field && (input is Key || input is Press || input is Pointer)
}

/// Where `input` goes first when the word's field `field` holds the keys through its open edit
/// menu: to the field, over where it was painted, before the dialog's surface and its buttons.
/// The part remembered as pressed is the returned one when the field uses the input; when it
/// does not, the input goes on to the surface and then to [`route`].
pub fn field_first(field: Option<u64>, key_capture: Option<u64>, rects: &[(u64, Rect)], pressed: Option<u64>, input: DialogInput) -> (way: Option<DialogRoute>)
    ensures
        way is Some <==> field_takes(field, key_capture, input),
        way matches Some(w) ==> w.target == field && w.rect == rect_of(rects@, field->0) && w.pressed == pressed_after(
            input,
            field,
            pressed,
        ),
{
    let takes = match (field, key_capture) {
        (Some(f), Some(c)) => f == c && match input {
            DialogInput::Key | DialogInput::Press { .. } | DialogInput::Pointer { .. } => true,
            _ => false,
        },
        _ => false,
    };
    if !takes {
        return None;
    }
    let f = field.unwrap();
    let after = match input {
        DialogInput::Press { .. } => Some(f),
        DialogInput::Pointer { .. } => None,
        _ => pressed,
    };
    Some(DialogRoute { target: field, rect: find_rect(rects, f), pressed: after })
}

/// What `first_of` finds is one of `parts`, and `wanted` holds of it.
proof fn lemma_first_of_finds_a_wanted_part(parts: Seq<u64>, wanted: spec_fn(u64) -> bool)
    ensures
        first_of(parts, wanted) matches Some(p) ==> parts.contains(p) && wanted(p),
    decreases parts.len(),
{
    if parts.len() > 0 && !wanted(parts[0]) {
        lemma_first_of_finds_a_wanted_part(parts.drop_first(), wanted);
        if let Some(p) = first_of(parts.drop_first(), wanted) {
            let i = choose|i: int| 0 <= i < parts.drop_first().len() && parts.drop_first()[i] == p;
            assert(parts[i + 1] == p);
        }
    } else if parts.len() > 0 {
        assert(parts[0] == parts[0]);
    }
}

/// Looking for one part of `parts` finds it.
proof fn lemma_first_of_one_part(parts: Seq<u64>, p: u64)
    requires
        parts.contains(p),
    ensures
        first_of(parts, |q: u64| Some(p) == Some(q)) == Some(p),
    decreases parts.len(),
{
    if parts[0] != p {
        let i = choose|i: int| 0 <= i < parts.len() && parts[i] == p;
        assert(parts.drop_first()[i - 1] == p);
        lemma_first_of_one_part(parts.drop_first(), p);
    }
}

/// The part a press went down on gets what the pointer does next, wherever it went: a release
/// answers only over the button that took the press, and a drag that began in the field keeps
/// selecting there.
pub proof fn lemma_the_pressed_part_gets_the_release(
    parts: Seq<u64>,
    rects: Seq<(u64, Rect)>,
    focused: Option<u64>,
    pressed: Option<u64>,
    x: i32,
    y: i32,
    later_x: i32,
    later_y: i32,
)
    ensures
        routed_to(parts, rects, focused, pressed, DialogInput::Press { x, y }) matches Some(part) ==> routed_to(
            parts,
            rects,
            focused,
            pressed_after(DialogInput::Press { x, y }, Some(part), pressed),
            DialogInput::Pointer { x: later_x, y: later_y },
        ) == Some(part),
{
    let wanted = |p: u64| painted_over(rects, p, x, y);
    lemma_first_of_finds_a_wanted_part(parts, wanted);
    if let Some(part) = first_of(parts, wanted) {
        lemma_first_of_one_part(parts, part);
    }
}

/// Spaces around a typed text do not matter: white space before and after it is dropped before
/// comparing.
pub proof fn lemma_spaces_around_are_ignored(before: Seq<char>, text: Seq<char>, after: Seq<char>)
    requires
        all_white(before),
        all_white(after),
    ensures
        folded(before + text + after) == folded(text),
{
    assert(before + text + after =~= before + (text + after));
    lemma_trim_start_skips_white(before, text + after);
    if all_white(text) {
        lemma_trim_start_skips_white(text, after);
        assert(after + Seq::<char>::empty() =~= after);
        lemma_trim_start_skips_white(after, Seq::<char>::empty());
        assert(text + Seq::<char>::empty() =~= text);
        lemma_trim_start_skips_white(text, Seq::<char>::empty());
    } else {
        lemma_trim_start_keeps_tail(text, after);
        lemma_trim_end_skips_white(trim_start(text), after);
    }
}

/// `İ`, `I`, `ı` and `i` are all the same letter when typed words are compared.
pub proof fn lemma_dotted_and_dotless_i_are_one_letter()
    ensures
        fold_char('İ') == seq!['i'],
        fold_char('I') == seq!['i'],
        fold_char('ı') == seq!['i'],
        fold_char('i') == seq!['i'],
{
}

} // verus!
