//! Picking a late kitty graphics answer out of the input.
//!
//! The runtime asks the terminal which pictures it can show as it starts, and waits only briefly
//! for the answers. A terminal that answers after the wait is over sends its kitty answer
//! `ESC _ G i=31;OK ESC \` into the input, where the parser turns it into Alt+`_`, the
//! characters, then Alt+`\`. [`LateAnswer`] picks such an answer out, so it never reaches the
//! application as keys, and remembers whether it said `OK`: the terminal draws kitty pictures
//! after all. Keys that only looked like the start of an answer are handed back, in order.
//!
//! Events are opaque here (`E`); what the filter reads of a key event is a [`KeyPress`]. Times
//! are nanoseconds on a monotonic clock.

use vstd::prelude::*;
use vstd::utf8::{char_is_scalar, encode_scalar, encode_utf8};

verus! {

/// How long after a probe that went unanswered a kitty answer is still picked out of the input,
/// in nanoseconds.
pub const LATE: u64 = 10_000_000_000;

/// The longest answer text, in UTF-8 bytes, that still grows by another character.
pub const MOST_TEXT: usize = 256;

/// The key of a key event.
#[derive(Debug, Clone, Copy, PartialEq, Eq, Structural)]
pub enum KeyCode {
    /// A character key.
    Char(char),
    /// Any other key.
    Other,
}

/// What the filter reads of a key event: its key and its modifiers.
#[derive(Debug, Clone, Copy, PartialEq, Eq, Structural)]
pub struct KeyPress {
    pub code: KeyCode,
    pub alt: bool,
    pub control: bool,
    /// Any modifier besides Alt and Control: Shift, Super, Hyper or Meta.
    pub others: bool,
}

impl KeyPress {
    /// Alt and nothing else.
    pub open spec fn alt_only(self) -> bool {
        self.alt && !self.control && !self.others
    }

    /// Neither Alt nor Control.
    pub open spec fn plain(self) -> bool {
        !self.alt && !self.control
    }
}

/// The characters that start the answer to the probe: image 31.
pub open spec fn answer_start() -> Seq<char> {
    seq!['G', 'i', '=', '3', '1']
}

/// The characters that end an answer saying the picture was taken.
pub open spec fn answer_ok() -> Seq<char> {
    seq![';', 'O', 'K']
}

/// The state of the filter: until when an answer is expected, the events of an answer so far,
/// the characters after its introducer, and whether an answer picked out said `OK`.
#[verifier::ext_equal]
pub struct LateView<E> {
    pub until: Option<u64>,
    pub held: Seq<E>,
    pub text: Seq<char>,
    pub kitty: bool,
}

/// Whether the filter in state `s` looks at events at `now`: an answer is under way, or one is
/// still expected.
pub open spec fn looks<E>(s: LateView<E>, now: u64) -> bool {
    s.held.len() > 0 || (s.until is Some && now < s.until->0)
}

/// `event` and the events held before it go to the application; nothing is held any more.
pub open spec fn passed<E>(s: LateView<E>, event: E) -> (LateView<E>, Seq<E>) {
    (LateView { until: s.until, held: Seq::empty(), text: Seq::empty(), kitty: s.kitty }, s.held.push(event))
}

/// Whether `text` may still grow into an answer to the probe, or is one.
pub open spec fn may_answer(text: Seq<char>) -> bool {
    text.is_prefix_of(answer_start()) || answer_start().is_prefix_of(text)
}

/// The filter's next state and the events for the application when `event`, whose key is `key`
/// (`None` for an event that is no key), arrives at `now`; `more` tells whether more input is
/// waiting behind it.
pub open spec fn filtered<E>(s: LateView<E>, event: E, key: Option<KeyPress>, more: bool, now: u64) -> (
    LateView<E>,
    Seq<E>,
) {
    if !looks(s, now) {
        (LateView { until: None, held: s.held, text: s.text, kitty: s.kitty }, seq![event])
    } else {
        match key {
            None => passed(s, event),
            Some(k) => {
                if k.code == KeyCode::Char('_') && k.alt_only() && more && s.held.len() == 0 {
                    (LateView { until: s.until, held: seq![event], text: s.text, kitty: s.kitty }, Seq::empty())
                } else if k.code == KeyCode::Char('\\') && k.alt_only() && answer_start().is_prefix_of(s.text) {
                    (
                        LateView {
                            until: None,
                            held: Seq::empty(),
                            text: Seq::empty(),
                            kitty: answer_ok().is_suffix_of(s.text),
                        },
                        Seq::empty(),
                    )
                } else if k.code is Char && k.plain() && s.held.len() > 0 && encode_utf8(s.text).len() < MOST_TEXT {
                    let text = s.text.push(k.code->0);
                    let held = s.held.push(event);
                    if may_answer(text) {
                        (LateView { until: s.until, held: held, text: text, kitty: s.kitty }, Seq::empty())
                    } else {
                        (LateView { until: s.until, held: Seq::empty(), text: Seq::empty(), kitty: s.kitty }, held)
                    }
                } else {
                    passed(s, event)
                }
            },
        }
    }
}

/// The filter's state and what reaches the application after `events`, with keys `keys`, read
/// in one burst at `now`: more input waits behind every event but the last.
pub open spec fn run<E>(s: LateView<E>, events: Seq<E>, keys: Seq<Option<KeyPress>>, now: u64) -> (
    LateView<E>,
    Seq<E>,
)
    decreases events.len(),
{
    if events.len() == 0 {
        (s, Seq::empty())
    } else {
        let first = filtered(s, events[0], keys[0], events.len() > 1, now);
        let rest = run(first.0, events.drop_first(), keys.drop_first(), now);
        (rest.0, first.1 + rest.1)
    }
}

/// The number of bytes of `c` in UTF-8.
fn utf8_width(c: char) -> (width: usize)
    ensures
        width == encode_scalar(c as u32).len(),
        1 <= width <= 4,
{
    proof {
        char_is_scalar(c);
    }
    let v: u32 = c as u32;
    if v <= 0x7f {
        1
    } else if v <= 0x7ff {
        2
    } else if v <= 0xffff {
        3
    } else {
        4
    }
}

proof fn lemma_encode_push(s: Seq<char>, c: char)
    ensures
        encode_utf8(s.push(c)) == encode_utf8(s) + encode_scalar(c as u32),
    decreases s.len(),
{
    if s.len() == 0 {
        assert(s.push(c).drop_first() =~= Seq::<char>::empty());
        assert(s.push(c)[0] == c);
        assert(encode_utf8(Seq::<char>::empty()) =~= Seq::<u8>::empty());
        assert(encode_utf8(s.push(c)) =~= encode_utf8(s) + encode_scalar(c as u32));
    } else {
        let rest = s.drop_first();
        assert(s.push(c).drop_first() =~= rest.push(c));
        assert(s.push(c)[0] == s[0]);
        lemma_encode_push(rest, c);
        let first = encode_scalar(s[0] as u32);
        assert(encode_utf8(s.push(c)) == first + encode_utf8(rest.push(c)));
        assert(encode_utf8(s) == first + encode_utf8(rest));
        assert(first + (encode_utf8(rest) + encode_scalar(c as u32)) =~= (first + encode_utf8(rest)) + encode_scalar(c as u32));
    }
}

proof fn lemma_encode_prefix_len(s: Seq<char>, k: int)
    requires
        0 <= k <= s.len(),
    ensures
        encode_utf8(s.take(k)).len() <= encode_utf8(s).len(),
    decreases s.len() - k,
{
    if k < s.len() {
        assert(s.take(k + 1) =~= s.take(k).push(s[k]));
        lemma_encode_push(s.take(k), s[k]);
        lemma_encode_prefix_len(s, k + 1);
    } else {
        assert(s.take(k) =~= s);
    }
}

/// Whether `a` starts `b`.
fn starts(a: &Vec<char>, b: &Vec<char>) -> (r: bool)
    ensures
        r == a@.is_prefix_of(b@),
{
    if a.len() > b.len() {
        return false;
    }
    let mut i: usize = 0;
    while i < a.len()
        invariant
            i <= a@.len() <= b@.len(),
            forall|j: int| 0 <= j < i ==> a@[j] == b@[j],
        decreases a@.len() - i,
    {
        if a[i] != b[i] {
            assert(b@.subrange(0, a@.len() as int)[i as int] == b@[i as int]);
            return false;
        }
        i = i + 1;
    }
    assert(a@ =~= b@.subrange(0, a@.len() as int));
    true
}

/// Whether `a` ends `b`.
fn ends(a: &Vec<char>, b: &Vec<char>) -> (r: bool)
    ensures
        r == a@.is_suffix_of(b@),
{
    if a.len() > b.len() {
        return false;
    }
    let offset: usize = b.len() - a.len();
    let mut i: usize = 0;
    while i < a.len()
        invariant
            offset == b@.len() - a@.len(),
            i <= a@.len() <= b@.len(),
            forall|j: int| 0 <= j < i ==> a@[j] == b@[offset + j],
        decreases a@.len() - i,
    {
        assert(offset + i < b.len());
        if a[i] != b[offset + i] {
            assert(b@.subrange(offset as int, b@.len() as int)[i as int] == b@[offset + i]);
            return false;
        }
        i = i + 1;
    }
    assert(a@ =~= b@.subrange(offset as int, b@.len() as int));
    true
}

/// The characters of [`answer_start`].
fn answer_start_chars() -> (chars: Vec<char>)
    ensures
        chars@ == answer_start(),
{
    let mut chars: Vec<char> = Vec::new();
    chars.push('G');
    chars.push('i');
    chars.push('=');
    chars.push('3');
    chars.push('1');
    assert(chars@ =~= answer_start());
    chars
}

/// The characters of [`answer_ok`].
fn answer_ok_chars() -> (chars: Vec<char>)
    ensures
        chars@ == answer_ok(),
{
    let mut chars: Vec<char> = Vec::new();
    chars.push(';');
    chars.push('O');
    chars.push('K');
    assert(chars@ =~= answer_ok());
    chars
}

/// Picks a kitty answer that arrived after the probe stopped waiting out of the input.
pub struct LateAnswer<E> {
    /// Until when an answer is still expected; `None` when none is.
    until: Option<u64>,
    /// Events of an answer so far, handed back when it turns out not to be one.
    held: Vec<E>,
    /// The characters after the introducer.
    text: Vec<char>,
    /// The length of `text` in UTF-8 bytes.
    text_bytes: usize,
    /// Whether an answer picked out said `OK`.
    kitty: bool,
}

impl<E> View for LateAnswer<E> {
    type V = LateView<E>;

    closed spec fn view(&self) -> LateView<E> {
        LateView { until: self.until, held: self.held@, text: self.text@, kitty: self.kitty }
    }
}

impl<E> Default for LateAnswer<E> {
    /// A filter that expects nothing: every event passes.
    fn default() -> (late: Self)
        ensures
            late.wf(),
            late@ == (LateView::<E> { until: None, held: Seq::empty(), text: Seq::empty(), kitty: false }),
    {
        LateAnswer { until: None, held: Vec::new(), text: Vec::new(), text_bytes: 0, kitty: false }
    }
}

impl<E> LateAnswer<E> {
    /// The byte count kept beside the text is right.
    pub closed spec fn wf(&self) -> bool {
        self.text_bytes == encode_utf8(self.text@).len()
    }

    /// Expects a late answer until `until`.
    pub fn until(until: u64) -> (late: Self)
        ensures
            late.wf(),
            late@ == (LateView::<E> { until: Some(until), held: Seq::empty(), text: Seq::empty(), kitty: false }),
    {
        LateAnswer { until: Some(until), held: Vec::new(), text: Vec::new(), text_bytes: 0, kitty: false }
    }

    /// Hands back the held events and forgets the text.
    fn pass_held(&mut self) -> (events: Vec<E>)
        ensures
            final(self).wf(),
            final(self)@ == (LateView::<E> { until: old(self)@.until, held: Seq::empty(), text: Seq::empty(), kitty: old(self)@.kitty }),
            events@ == old(self)@.held,
    {
        let mut events: Vec<E> = Vec::new();
        std::mem::swap(&mut events, &mut self.held);
        self.text = Vec::new();
        self.text_bytes = 0;
        events
    }

    /// Hands back the held events and `event` after them.
    fn pass(&mut self, event: E) -> (events: Vec<E>)
        ensures
            final(self).wf(),
            (final(self)@, events@) == passed(old(self)@, event),
    {
        let mut events = self.pass_held();
        events.push(event);
        events
    }

    /// The events to handle for `event`, whose key is `key` (`None` for an event that is no key),
    /// arriving at `now`: none while it belongs to an answer, the held ones and itself when what
    /// looked like an answer was not one. `more` tells whether more input is waiting: an answer
    /// arrives in one burst, a key typed by hand does not.
    pub fn filter(&mut self, event: E, key: Option<KeyPress>, more: bool, now: u64) -> (events: Vec<E>)
        requires
            old(self).wf(),
        ensures
            final(self).wf(),
            final(self)@ == filtered(old(self)@, event, key, more, now).0,
            events@ == filtered(old(self)@, event, key, more, now).1,
    {
        let expected = match self.until {
            Some(until) => now < until,
            None => false,
        };
        if self.held.len() == 0 && !expected {
            self.until = None;
            let mut events: Vec<E> = Vec::new();
            events.push(event);
            assert(events@ =~= seq![event]);
            return events;
        }
        let k = match key {
            Some(k) => k,
            None => {
                return self.pass(event);
            },
        };
        let alt = k.alt && !k.control && !k.others;
        let plain = !k.alt && !k.control;
        if k.code == KeyCode::Char('_') && alt && more && self.held.len() == 0 {
            self.held.push(event);
            assert(self.held@ =~= seq![event]);
            return Vec::new();
        }
        if k.code == KeyCode::Char('\\') && alt {
            let start = answer_start_chars();
            if starts(&start, &self.text) {
                let ok = answer_ok_chars();
                let kitty = ends(&ok, &self.text);
                self.until = None;
                self.held = Vec::new();
                self.text = Vec::new();
                self.text_bytes = 0;
                self.kitty = kitty;
                return Vec::new();
            }
        }
        match k.code {
            KeyCode::Char(c) => {
                if plain && self.held.len() > 0 && self.text_bytes < MOST_TEXT {
                    proof {
                        lemma_encode_push(self.text@, c);
                    }
                    let width = utf8_width(c);
                    self.text.push(c);
                    self.text_bytes = self.text_bytes + width;
                    self.held.push(event);
                    let start = answer_start_chars();
                    if starts(&self.text, &start) || starts(&start, &self.text) {
                        Vec::new()
                    } else {
                        self.pass_held()
                    }
                } else {
                    self.pass(event)
                }
            },
            KeyCode::Other => self.pass(event),
        }
    }

    /// Whether a late answer said the terminal draws kitty pictures; `true` once, so the caller
    /// switches when it hears it.
    pub fn take_kitty(&mut self) -> (kitty: bool)
        ensures
            kitty == old(self)@.kitty,
            final(self)@ == (LateView::<E> { kitty: false, ..old(self)@ }),
            final(self).wf() == old(self).wf(),
    {
        let kitty = self.kitty;
        self.kitty = false;
        kitty
    }
}

/// A filter expecting a late answer for [`LATE`] from `now`, after a probe that did not finish.
pub fn late_from<E>(now: u64) -> (late: LateAnswer<E>)
    requires
        now + LATE <= u64::MAX,
    ensures
        late.wf(),
        late@ == (LateView::<E> { until: Some((now + LATE) as u64), held: Seq::empty(), text: Seq::empty(), kitty: false }),
{
    LateAnswer::until(now + LATE)
}

/// Alt with `c`, and no other modifier.
pub open spec fn alt_key(c: char) -> KeyPress {
    KeyPress { code: KeyCode::Char(c), alt: true, control: false, others: false }
}

/// Whether `event` with `key` ends the answer collected in `s` at `now`.
pub open spec fn ends_answer<E>(s: LateView<E>, key: Option<KeyPress>, now: u64) -> bool {
    &&& looks(s, now)
    &&& key == Some(alt_key('\\'))
    &&& answer_start().is_prefix_of(s.text)
}

/// No event is lost or reordered: what reaches the application, followed by what is still
/// held, is what was held before followed by the new event. The one exception is the event that
/// ends an answer: the answer's events, itself among them, are dropped together.
pub proof fn lemma_no_event_is_lost<E>(s: LateView<E>, event: E, key: Option<KeyPress>, more: bool, now: u64)
    ensures
        ({
            let (t, out) = filtered(s, event, key, more, now);
            if ends_answer(s, key, now) {
                out.len() == 0 && t.held.len() == 0
            } else {
                out + t.held == s.held.push(event)
            }
        }),
{
    let (t, out) = filtered(s, event, key, more, now);
    if !looks(s, now) {
        assert(out + t.held =~= s.held.push(event));
    } else if ends_answer(s, key, now) {
    } else {
        match key {
            None => {
                assert(out + t.held =~= s.held.push(event));
            },
            Some(k) => {
                assert(out + t.held =~= s.held.push(event));
            },
        }
    }
}

/// Once no answer is expected and none is under way, every event of a burst reaches the
/// application, in order, and nothing more is expected.
pub proof fn lemma_input_passes_once_the_wait_is_over<E>(
    s: LateView<E>,
    events: Seq<E>,
    keys: Seq<Option<KeyPress>>,
    now: u64,
)
    requires
        !looks(s, now),
    ensures
        run(s, events, keys, now).1 == events,
        !looks(run(s, events, keys, now).0, now),
    decreases events.len(),
{
    if events.len() > 0 {
        let first = filtered(s, events[0], keys[0], events.len() > 1, now);
        lemma_input_passes_once_the_wait_is_over(first.0, events.drop_first(), keys.drop_first(), now);
        assert(events =~= seq![events[0]] + events.drop_first());
    } else {
        assert(events =~= Seq::<E>::empty());
    }
}

/// Whether `keys`, one for each event of a burst, spell a kitty answer whose text after the
/// introducer is `text`: Alt+`_`, the characters of `text` as keys without Alt or Control, then
/// Alt+`\`.
pub open spec fn spells_answer(keys: Seq<Option<KeyPress>>, text: Seq<char>) -> bool {
    &&& keys.len() == text.len() + 2
    &&& keys[0] == Some(alt_key('_'))
    &&& keys[keys.len() - 1] == Some(alt_key('\\'))
    &&& forall|i: int|
        0 <= i < text.len() ==> (#[trigger] keys[i + 1]) is Some && keys[i + 1]->0.plain() && keys[i
            + 1]->0.code == KeyCode::Char(text[i])
}

proof fn lemma_answer_rest<E>(
    s: LateView<E>,
    events: Seq<E>,
    keys: Seq<Option<KeyPress>>,
    text: Seq<char>,
    k: int,
    now: u64,
)
    requires
        0 <= k <= text.len(),
        events.len() == keys.len(),
        events.len() == text.len() - k + 1,
        s.held.len() > 0,
        s.text == text.take(k),
        answer_start().is_prefix_of(text),
        encode_utf8(text.drop_last()).len() < MOST_TEXT,
        keys[keys.len() - 1] == Some(alt_key('\\')),
        forall|i: int|
            0 <= i < text.len() - k ==> (#[trigger] keys[i]) is Some && keys[i]->0.plain() && keys[i]->0.code
                == KeyCode::Char(text[k + i]),
    ensures
        run(s, events, keys, now).0 == (LateView::<E> {
            until: None,
            held: Seq::empty(),
            text: Seq::empty(),
            kitty: answer_ok().is_suffix_of(text),
        }),
        run(s, events, keys, now).1 == Seq::<E>::empty(),
    decreases events.len(),
{
    let first = filtered(s, events[0], keys[0], events.len() > 1, now);
    if k == text.len() {
        assert(text.take(k) =~= text);
        assert(events.drop_first().len() == 0);
        assert(first.0 =~= (LateView::<E> {
            until: None,
            held: Seq::empty(),
            text: Seq::empty(),
            kitty: answer_ok().is_suffix_of(text),
        }));
        let rest = run(first.0, events.drop_first(), keys.drop_first(), now);
        assert(rest.0 == first.0 && rest.1 == Seq::<E>::empty());
        assert(first.1 + rest.1 =~= Seq::<E>::empty());
    } else {
        let key = keys[0]->0;
        assert(key.plain() && key.code == KeyCode::Char(text[k]));
        assert(text.take(k) =~= text.drop_last().take(k));
        lemma_encode_prefix_len(text.drop_last(), k);
        assert(text.take(k).push(text[k]) =~= text.take(k + 1));
        if k + 1 <= 5 {
            assert(text.take(k + 1) =~= answer_start().subrange(0, k + 1));
            assert(text.take(k + 1).is_prefix_of(answer_start()));
        } else {
            assert(answer_start() =~= text.take(k + 1).subrange(0, 5));
            assert(answer_start().is_prefix_of(text.take(k + 1)));
        }
        assert(first.0.text == text.take(k + 1));
        assert(first.1 =~= Seq::<E>::empty());
        let rest_keys = keys.drop_first();
        assert forall|i: int| 0 <= i < text.len() - (k + 1) implies (#[trigger] rest_keys[i]) is Some
            && rest_keys[i]->0.plain() && rest_keys[i]->0.code == KeyCode::Char(text[(k + 1) + i]) by {
            assert(rest_keys[i] == keys[i + 1]);
        }
        lemma_answer_rest(first.0, events.drop_first(), rest_keys, text, k + 1, now);
        let rest = run(first.0, events.drop_first(), rest_keys, now);
        assert(first.1 + rest.1 =~= Seq::<E>::empty());
    }
}

/// A kitty answer that arrives in one burst while one is expected never reaches the
/// application, whatever it says, as long as its text stays within [`MOST_TEXT`] bytes; the
/// filter then expects nothing more and remembers whether it said `OK`.
pub proof fn lemma_a_late_answer_never_reaches_the_application<E>(
    s: LateView<E>,
    events: Seq<E>,
    keys: Seq<Option<KeyPress>>,
    text: Seq<char>,
    now: u64,
)
    requires
        s.until is Some && now < s.until->0,
        s.held.len() == 0,
        s.text.len() == 0,
        events.len() == keys.len(),
        spells_answer(keys, text),
        answer_start().is_prefix_of(text),
        encode_utf8(text.drop_last()).len() < MOST_TEXT,
    ensures
        run(s, events, keys, now).0 == (LateView::<E> {
            until: None,
            held: Seq::empty(),
            text: Seq::empty(),
            kitty: answer_ok().is_suffix_of(text),
        }),
        run(s, events, keys, now).1 == Seq::<E>::empty(),
{
    let first = filtered(s, events[0], keys[0], events.len() > 1, now);
    assert(first.0.held =~= seq![events[0]]);
    assert(first.1 =~= Seq::<E>::empty());
    assert(s.text =~= text.take(0));
    let rest_keys = keys.drop_first();
    assert forall|i: int| 0 <= i < text.len() - 0 implies (#[trigger] rest_keys[i]) is Some
        && rest_keys[i]->0.plain() && rest_keys[i]->0.code == KeyCode::Char(text[0 + i]) by {
        assert(rest_keys[i] == keys[i + 1]);
    }
    lemma_answer_rest(first.0, events.drop_first(), rest_keys, text, 0, now);
    let rest = run(first.0, events.drop_first(), rest_keys, now);
    assert(first.1 + rest.1 =~= Seq::<E>::empty());
}

} // verus!
