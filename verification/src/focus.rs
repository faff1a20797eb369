//! Where the keyboard's focus goes: to a widget an application names, to the next or the
//! previous widget that takes focus, to what a widget asks for, and back to what a scope of
//! widgets remembers when the focused widget is gone.

use vstd::prelude::*;

use crate::input::is_within;
use crate::text::chars_of;

verus! {

/// What a painted frame tells about focus.
#[derive(Debug, Clone)]
pub struct FocusFacts {
    /// The widgets that take focus, in focus order.
    pub focusable: Vec<u64>,
    /// The widgets input can reach: none beneath a modal layer.
    pub reachable: Vec<u64>,
    /// The names widgets were given.
    pub names: Vec<(u64, String)>,
    /// Each widget with its parent: child, then parent.
    pub parents: Vec<(u64, u64)>,
    /// Each widget with the focus scope it lies in.
    pub scopes: Vec<(u64, u64)>,
    /// The widgets painted.
    pub painted: Vec<u64>,
}

/// What a widget asked the focus to do.
#[derive(Debug, Clone, Copy, PartialEq, Eq, Structural)]
pub enum FocusRequest {
    /// Focus this widget, if it takes focus.
    Exact(u64),
    /// Focus the first focusable widget inside this one, unless the focus already is inside it.
    Within(u64),
}

/// The name of widget `id`: its first entry.
pub open spec fn name_of(names: Seq<(u64, String)>, id: u64) -> Option<Seq<char>>
    decreases names.len(),
{
    if names.len() == 0 {
        None
    } else if names[0].0 == id {
        Some(names[0].1@)
    } else {
        name_of(names.drop_first(), id)
    }
}

/// The first of `ids` for which `wanted` holds.
pub open spec fn first_such(ids: Seq<u64>, wanted: spec_fn(u64) -> bool) -> Option<u64>
    decreases ids.len(),
{
    if ids.len() == 0 {
        None
    } else if wanted(ids[0]) {
        Some(ids[0])
    } else {
        first_such(ids.drop_first(), wanted)
    }
}

/// The focusable widget named `name`: the first in focus order.
pub open spec fn named_spec(f: FocusFacts, name: Seq<char>) -> Option<u64> {
    first_such(f.focusable@, |id: u64| name_of(f.names@, id) == Some(name))
}

/// The scope widget `id` lies in: its first entry.
pub open spec fn scope_of(scopes: Seq<(u64, u64)>, id: u64) -> Option<u64>
    decreases scopes.len(),
{
    if scopes.len() == 0 {
        None
    } else if scopes[0].0 == id {
        Some(scopes[0].1)
    } else {
        scope_of(scopes.drop_first(), id)
    }
}

/// Where the focus goes when an application asks for the widget named `name`: to it when the
/// last frame showed it; otherwise the focus stays and the name waits for the next frame.
pub open spec fn focus_named_spec(focused: Option<u64>, pending: Option<Seq<char>>, f: FocusFacts, name: Seq<char>) -> (Option<u64>, Option<Seq<char>>) {
    match named_spec(f, name) {
        Some(target) => (Some(target), pending),
        None => (focused, Some(name)),
    }
}

/// The widget a focus request lands on, if any.
pub open spec fn requested(focused: Option<u64>, f: FocusFacts, request: Option<FocusRequest>) -> Option<u64> {
    match request {
        None => None,
        Some(FocusRequest::Exact(id)) => if f.focusable@.contains(id) { Some(id) } else { None },
        Some(FocusRequest::Within(owner)) => if focused matches Some(now) && is_within(f.parents@, now, owner) {
            None
        } else {
            first_such(f.focusable@, |id: u64| is_within(f.parents@, id, owner))
        },
    }
}

/// The focus after a request: where it lands, or where it was.
pub open spec fn after_request(focused: Option<u64>, f: FocusFacts, request: Option<FocusRequest>) -> Option<u64> {
    match requested(focused, f, request) {
        Some(target) => Some(target),
        None => focused,
    }
}

/// The widgets the focus moves among: the focusable ones input can reach, in focus order.
pub open spec fn order_of(f: FocusFacts) -> Seq<u64> {
    f.focusable@.filter(|id: u64| f.reachable@.contains(id))
}

/// Where `id` first stands in `ids`.
pub open spec fn place_in(ids: Seq<u64>, id: u64) -> Option<int>
    decreases ids.len(),
{
    if ids.len() == 0 {
        None
    } else if ids[0] == id {
        Some(0)
    } else {
        match place_in(ids.drop_first(), id) {
            Some(k) => Some(k + 1),
            None => None,
        }
    }
}

/// Where the focus goes `step` widgets on (back, when negative), round the order: from the
/// first widget forward or the last backward when none is focused; as it was when none takes
/// it.
pub open spec fn moved(focused: Option<u64>, f: FocusFacts, step: i64) -> Option<u64> {
    let order = order_of(f);
    let len = order.len() as int;
    if len == 0 {
        focused
    } else {
        let at = match focused {
            Some(now) => place_in(order, now),
            None => None,
        };
        let next = match at {
            Some(index) => (index + step) % len,
            None => if step > 0 { 0 } else { len - 1 },
        };
        Some(order[next])
    }
}

/// Whether `id` is in `ids`.
fn holds(ids: &Vec<u64>, id: u64) -> (found: bool)
    ensures
        found == ids@.contains(id),
{
    let mut i: usize = 0;
    while i < ids.len()
        invariant
            i <= ids@.len(),
            forall|j: int| 0 <= j < i ==> ids@[j] != id,
        decreases ids@.len() - i,
    {
        if ids[i] == id {
            assert(ids@[i as int] == id);
            return true;
        }
        i = i + 1;
    }
    false
}

/// Whether two texts are the same.
fn same_text(a: &str, b: &str) -> (same: bool)
    ensures
        same == (a@ == b@),
{
    let x = chars_of(a);
    let y = chars_of(b);
    if x.len() != y.len() {
        return false;
    }
    let mut i: usize = 0;
    while i < x.len()
        invariant
            i <= x@.len(),
            x@ == a@,
            y@ == b@,
            x@.len() == y@.len(),
            forall|j: int| 0 <= j < i ==> x@[j] == y@[j],
        decreases x@.len() - i,
    {
        if x[i] != y[i] {
            assert(x@[i as int] != y@[i as int]);
            return false;
        }
        i = i + 1;
    }
    assert(x@ =~= y@);
    true
}

/// Whether widget `id` is named `name`.
fn is_named(names: &Vec<(u64, String)>, id: u64, name: &str) -> (yes: bool)
    ensures
        yes == (name_of(names@, id) == Some(name@)),
{
    let mut i: usize = 0;
    assert(names@.skip(0) =~= names@);
    while i < names.len()
        invariant
            i <= names@.len(),
            name_of(names@, id) == name_of(names@.skip(i as int), id),
        decreases names@.len() - i,
    {
        assert(names@.skip(i as int).drop_first() =~= names@.skip(i + 1));
        assert(names@.skip(i as int)[0] == names@[i as int]);
        if names[i].0 == id {
            return same_text(names[i].1.as_str(), name);
        }
        i = i + 1;
    }
    false
}

/// The focusable widget named `name` in the last frame: the first in focus order.
pub fn named_focusable(f: &FocusFacts, name: &str) -> (target: Option<u64>)
    ensures
        target == named_spec(*f, name@),
{
    let ghost wanted = |id: u64| name_of(f.names@, id) == Some(name@);
    let mut i: usize = 0;
    assert(f.focusable@.skip(0) =~= f.focusable@);
    while i < f.focusable.len()
        invariant
            i <= f.focusable@.len(),
            wanted == (|id: u64| name_of(f.names@, id) == Some(name@)),
            first_such(f.focusable@, wanted) == first_such(f.focusable@.skip(i as int), wanted),
        decreases f.focusable@.len() - i,
    {
        assert(f.focusable@.skip(i as int).drop_first() =~= f.focusable@.skip(i + 1));
        assert(f.focusable@.skip(i as int)[0] == f.focusable@[i as int]);
        if is_named(&f.names, f.focusable[i], name) {
            return Some(f.focusable[i]);
        }
        i = i + 1;
    }
    None
}

/// The focus and the waiting name after an application asked for the widget named `name`: the
/// widget, when the last frame showed it; otherwise the focus stays and the name waits.
pub fn focus_named(focused: Option<u64>, pending: Option<String>, f: &FocusFacts, name: &str) -> (next: (Option<u64>, Option<String>))
    ensures
        ({
            let text = match pending {
                Some(p) => Some(p@),
                None => None,
            };
            let after = match next.1 {
                Some(p) => Some(p@),
                None => None,
            };
            (next.0, after) == focus_named_spec(focused, text, *f, name@)
        }),
{
    match named_focusable(f, name) {
        Some(target) => (Some(target), pending),
        None => (focused, Some(name.to_owned())),
    }
}

/// The first focusable widget inside `owner`.
fn first_within(f: &FocusFacts, owner: u64) -> (found: Option<u64>)
    ensures
        found == first_such(f.focusable@, |id: u64| is_within(f.parents@, id, owner)),
{
    let ghost wanted = |id: u64| is_within(f.parents@, id, owner);
    let mut i: usize = 0;
    assert(f.focusable@.skip(0) =~= f.focusable@);
    while i < f.focusable.len()
        invariant
            i <= f.focusable@.len(),
            wanted == (|id: u64| is_within(f.parents@, id, owner)),
            first_such(f.focusable@, wanted) == first_such(f.focusable@.skip(i as int), wanted),
        decreases f.focusable@.len() - i,
    {
        assert(f.focusable@.skip(i as int).drop_first() =~= f.focusable@.skip(i + 1));
        assert(f.focusable@.skip(i as int)[0] == f.focusable@[i as int]);
        if crate::input::within(&f.parents, f.focusable[i], owner) {
            return Some(f.focusable[i]);
        }
        i = i + 1;
    }
    None
}

/// The focus after a widget's request: the widget asked for when it takes focus, or the first
/// focusable widget inside the one asked for unless the focus already is inside it; otherwise
/// the focus stays.
pub fn apply_request(focused: Option<u64>, f: &FocusFacts, request: Option<FocusRequest>) -> (next: Option<u64>)
    ensures
        next == after_request(focused, *f, request),
{
    let target = match request {
        None => None,
        Some(FocusRequest::Exact(id)) => if holds(&f.focusable, id) {
            Some(id)
        } else {
            None
        },
        Some(FocusRequest::Within(owner)) => {
            let inside = match focused {
                Some(now) => crate::input::within(&f.parents, now, owner),
                None => false,
            };
            if inside {
                None
            } else {
                first_within(f, owner)
            }
        },
    };
    match target {
        Some(t) => Some(t),
        None => focused,
    }
}

/// The focusable widgets input can reach, in focus order.
fn focus_order(f: &FocusFacts) -> (order: Vec<u64>)
    ensures
        order@ == order_of(*f),
{
    let ghost keep = |id: u64| f.reachable@.contains(id);
    let mut order: Vec<u64> = Vec::new();
    let mut i: usize = 0;
    while i < f.focusable.len()
        invariant
            i <= f.focusable@.len(),
            keep == (|id: u64| f.reachable@.contains(id)),
            order@ == f.focusable@.take(i as int).filter(keep),
        decreases f.focusable@.len() - i,
    {
        let id = f.focusable[i];
        let ghost before = f.focusable@.take(i as int);
        assert(f.focusable@.take(i + 1) =~= before.push(id));
        proof {
            before.lemma_filter_push(id, keep);
        }
        if holds(&f.reachable, id) {
            order.push(id);
        }
        i = i + 1;
    }
    assert(f.focusable@.take(i as int) =~= f.focusable@);
    order
}

proof fn lemma_place_found(ids: Seq<u64>, id: u64, i: int)
    requires
        0 <= i < ids.len(),
        ids[i] == id,
        forall|j: int| 0 <= j < i ==> ids[j] != id,
    ensures
        place_in(ids, id) == Some(i),
    decreases i,
{
    if i > 0 {
        assert forall|j: int| 0 <= j < i - 1 implies ids.drop_first()[j] != id by {
            assert(ids.drop_first()[j] == ids[j + 1]);
        }
        lemma_place_found(ids.drop_first(), id, i - 1);
    }
}

proof fn lemma_place_missing(ids: Seq<u64>, id: u64)
    requires
        forall|j: int| 0 <= j < ids.len() ==> ids[j] != id,
    ensures
        place_in(ids, id) is None,
    decreases ids.len(),
{
    if ids.len() > 0 {
        assert forall|j: int| 0 <= j < ids.drop_first().len() implies ids.drop_first()[j] != id by {
            assert(ids.drop_first()[j] == ids[j + 1]);
        }
        lemma_place_missing(ids.drop_first(), id);
    }
}

/// Where `id` first stands in `ids`.
fn position(ids: &Vec<u64>, id: u64) -> (at: Option<usize>)
    ensures
        at matches Some(i) ==> place_in(ids@, id) == Some(i as int) && i < ids@.len(),
        at is None ==> place_in(ids@, id) is None,
{
    let mut i: usize = 0;
    while i < ids.len()
        invariant
            i <= ids@.len(),
            forall|j: int| 0 <= j < i ==> ids@[j] != id,
        decreases ids@.len() - i,
    {
        if ids[i] == id {
            proof {
                lemma_place_found(ids@, id, i as int);
            }
            return Some(i);
        }
        i = i + 1;
    }
    proof {
        lemma_place_missing(ids@, id);
    }
    None
}

/// `index + step` round `len`.
fn round(index: usize, len: usize, step: i64) -> (r: usize)
    requires
        index < len,
    ensures
        r == (index + step) % (len as int),
        r < len,
{
    let m = len as u128;
    if step >= 0 {
        let sum = index as u128 + step as u128;
        let r = sum % m;
        assert(r == (index + step) % (len as int));
        r as usize
    } else {
        let back = (-(step as i128)) as u128;
        let k = back % m;
        let i = index as u128;
        let r = if i >= k { i - k } else { i + m - k };
        proof {
            let total = index + step;
            assert(total == i - back);
            lemma_round_back(i as int, back as int, m as int, k as int, r as int);
        }
        r as usize
    }
}

proof fn lemma_round_back(i: int, back: int, m: int, k: int, r: int)
    requires
        m > 0,
        0 <= i < m,
        back >= 0,
        k == back % m,
        r == if i >= k { i - k } else { i + m - k },
    ensures
        r == (i - back) % m,
        0 <= r < m,
{
    vstd::arithmetic::div_mod::lemma_fundamental_div_mod(back, m);
    let q = back / m;
    assert(i - back == r + (if i >= k { -q } else { -q - 1 }) * m) by (nonlinear_arith)
        requires
            back == m * q + k,
            r == if i >= k { i - k } else { i + m - k },
    ;
    vstd::arithmetic::div_mod::lemma_mod_bound(back, m);
    vstd::arithmetic::div_mod::lemma_fundamental_div_mod_converse(i - back, m, if i >= k { -q } else { -q - 1 }, r);
}

/// The focus moved `step` widgets on (back, when negative) round the order of the focusable
/// widgets input can reach: from the first widget forward or the last backward when none of
/// them is focused; unchanged when none takes focus.
pub fn move_focus(focused: Option<u64>, f: &FocusFacts, step: i64) -> (next: Option<u64>)
    ensures
        next == moved(focused, *f, step),
{
    let order = focus_order(f);
    let len = order.len();
    if len == 0 {
        return focused;
    }
    let at = match focused {
        Some(now) => position(&order, now),
        None => None,
    };
    let next: usize = match at {
        Some(index) => round(index, len, step),
        None => if step > 0 {
            0
        } else {
            len - 1
        },
    };
    Some(order[next])
}

/// What focus keeps between frames.
pub struct FocusState {
    /// The focused widget.
    pub focused: Option<u64>,
    /// A name asked for that the last frame did not show yet.
    pub pending: Option<String>,
    /// For each focus scope, the widget last focused in it.
    pub memory: Vec<(u64, u64)>,
    /// The widget holding the keys.
    pub key_capture: Option<u64>,
    /// The widget holding the pointer.
    pub pointer_capture: Option<u64>,
}

/// What a [`FocusState`] holds.
pub struct FocusView {
    pub focused: Option<u64>,
    pub pending: Option<Seq<char>>,
    pub memory: Seq<(u64, u64)>,
    pub key_capture: Option<u64>,
    pub pointer_capture: Option<u64>,
}

impl View for FocusState {
    type V = FocusView;

    open spec fn view(&self) -> FocusView {
        FocusView {
            focused: self.focused,
            pending: match self.pending {
                Some(p) => Some(p@),
                None => None,
            },
            memory: self.memory@,
            key_capture: self.key_capture,
            pointer_capture: self.pointer_capture,
        }
    }
}

/// The widget `memory` recalls for `scope`: its first entry.
pub open spec fn recalled(memory: Seq<(u64, u64)>, scope: u64) -> Option<u64>
    decreases memory.len(),
{
    if memory.len() == 0 {
        None
    } else if memory[0].0 == scope {
        Some(memory[0].1)
    } else {
        recalled(memory.drop_first(), scope)
    }
}

/// `memory` recalling `id` for `scope` from now on.
pub open spec fn remember(memory: Seq<(u64, u64)>, scope: u64, id: u64) -> Seq<(u64, u64)>
    decreases memory.len(),
{
    if memory.len() == 0 {
        seq![(scope, id)]
    } else if memory[0].0 == scope {
        seq![(scope, id)] + memory.drop_first()
    } else {
        seq![memory[0]] + remember(memory.drop_first(), scope, id)
    }
}

/// Focus after a frame was painted: a name that waited lands on its widget when the frame
/// shows it; a focused widget the frame no longer shows loses the focus, one it shows is
/// remembered for its scope; with no focus, the first focusable widget a scope remembers gets
/// it; a capture by a widget the frame did not paint ends; no name waits any more.
pub open spec fn settled(s: FocusView, f: FocusFacts) -> FocusView {
    let named = match s.pending {
        Some(name) => match named_spec(f, name) {
            Some(t) => Some(t),
            None => s.focused,
        },
        None => s.focused,
    };
    let (kept, memory) = match named {
        Some(id) => if f.focusable@.contains(id) {
            (named, match scope_of(f.scopes@, id) {
                Some(scope) => remember(s.memory, scope, id),
                None => s.memory,
            })
        } else {
            (None, s.memory)
        },
        None => (None, s.memory),
    };
    let focused = if kept is None {
        first_such(f.focusable@, |id: u64| scope_of(f.scopes@, id) matches Some(scope) && recalled(memory, scope) == Some(id))
    } else {
        kept
    };
    FocusView {
        focused,
        pending: None,
        memory,
        key_capture: if s.key_capture matches Some(c) && !f.painted@.contains(c) { None } else { s.key_capture },
        pointer_capture: if s.pointer_capture matches Some(c) && !f.painted@.contains(c) {
            None
        } else {
            s.pointer_capture
        },
    }
}

/// The scope widget `id` lies in.
fn find_scope(scopes: &Vec<(u64, u64)>, id: u64) -> (scope: Option<u64>)
    ensures
        scope == scope_of(scopes@, id),
{
    let mut i: usize = 0;
    assert(scopes@.skip(0) =~= scopes@);
    while i < scopes.len()
        invariant
            i <= scopes@.len(),
            scope_of(scopes@, id) == scope_of(scopes@.skip(i as int), id),
        decreases scopes@.len() - i,
    {
        assert(scopes@.skip(i as int).drop_first() =~= scopes@.skip(i + 1));
        assert(scopes@.skip(i as int)[0] == scopes@[i as int]);
        if scopes[i].0 == id {
            return Some(scopes[i].1);
        }
        i = i + 1;
    }
    None
}

/// The widget `memory` recalls for `scope`.
fn recall(memory: &Vec<(u64, u64)>, scope: u64) -> (id: Option<u64>)
    ensures
        id == recalled(memory@, scope),
{
    let mut i: usize = 0;
    assert(memory@.skip(0) =~= memory@);
    while i < memory.len()
        invariant
            i <= memory@.len(),
            recalled(memory@, scope) == recalled(memory@.skip(i as int), scope),
        decreases memory@.len() - i,
    {
        assert(memory@.skip(i as int).drop_first() =~= memory@.skip(i + 1));
        assert(memory@.skip(i as int)[0] == memory@[i as int]);
        if memory[i].0 == scope {
            return Some(memory[i].1);
        }
        i = i + 1;
    }
    None
}

proof fn lemma_remember_skip(memory: Seq<(u64, u64)>, scope: u64, id: u64, i: int)
    requires
        0 <= i <= memory.len(),
        forall|j: int| 0 <= j < i ==> memory[j].0 != scope,
    ensures
        remember(memory, scope, id) == memory.take(i) + remember(memory.skip(i), scope, id),
    decreases i,
{
    if i == 0 {
        assert(memory.skip(0) =~= memory);
        assert(memory.take(0) =~= Seq::<(u64, u64)>::empty());
        assert(memory.take(0) + remember(memory.skip(0), scope, id) =~= remember(memory, scope, id));
    } else {
        let rest = memory.drop_first();
        assert forall|j: int| 0 <= j < i - 1 implies rest[j].0 != scope by {
            assert(rest[j] == memory[j + 1]);
        }
        lemma_remember_skip(rest, scope, id, i - 1);
        assert(rest.skip(i - 1) =~= memory.skip(i));
        assert(seq![memory[0]] + (rest.take(i - 1) + remember(rest.skip(i - 1), scope, id)) =~= memory.take(i) + remember(
            memory.skip(i),
            scope,
            id,
        ));
    }
}

/// Where `scope` first stands in `memory`.
fn scope_entry(memory: &Vec<(u64, u64)>, scope: u64) -> (at: Option<usize>)
    ensures
        at matches Some(i) ==> i < memory@.len() && memory@[i as int].0 == scope && forall|j: int|
            0 <= j < i ==> memory@[j].0 != scope,
        at is None ==> forall|j: int| 0 <= j < memory@.len() ==> memory@[j].0 != scope,
{
    let mut i: usize = 0;
    while i < memory.len()
        invariant
            i <= memory@.len(),
            forall|j: int| 0 <= j < i ==> memory@[j].0 != scope,
        decreases memory@.len() - i,
    {
        if memory[i].0 == scope {
            return Some(i);
        }
        i = i + 1;
    }
    None
}

/// `memory` recalling `id` for `scope` from now on.
fn remember_in(entries: Vec<(u64, u64)>, scope: u64, id: u64) -> (after: Vec<(u64, u64)>)
    ensures
        after@ == remember(entries@, scope, id),
{
    let ghost before = entries@;
    let mut memory = entries;
    match scope_entry(&memory, scope) {
        Some(i) => {
            proof {
                lemma_remember_skip(before, scope, id, i as int);
                assert(before.skip(i as int)[0] == before[i as int]);
                assert(remember(before.skip(i as int), scope, id) == seq![(scope, id)] + before.skip(i as int).drop_first());
            }
            memory.set(i, (scope, id));
            assert(memory@ =~= before.take(i as int) + (seq![(scope, id)] + before.skip(i as int).drop_first()));
        },
        None => {
            proof {
                let n = before.len() as int;
                lemma_remember_skip(before, scope, id, n);
                assert(before.skip(n) =~= Seq::<(u64, u64)>::empty());
                assert(before.take(n) =~= before);
                assert(remember(Seq::<(u64, u64)>::empty(), scope, id) == seq![(scope, id)]);
            }
            memory.push((scope, id));
        },
    }
    memory
}

/// The first focusable widget that a scope remembers.
fn first_remembered(f: &FocusFacts, memory: &Vec<(u64, u64)>) -> (found: Option<u64>)
    ensures
        found == first_such(
            f.focusable@,
            |id: u64| scope_of(f.scopes@, id) matches Some(scope) && recalled(memory@, scope) == Some(id),
        ),
{
    let ghost wanted = |id: u64| scope_of(f.scopes@, id) matches Some(scope) && recalled(memory@, scope) == Some(id);
    let mut i: usize = 0;
    assert(f.focusable@.skip(0) =~= f.focusable@);
    while i < f.focusable.len()
        invariant
            i <= f.focusable@.len(),
            wanted == (|id: u64| scope_of(f.scopes@, id) matches Some(scope) && recalled(memory@, scope) == Some(id)),
            first_such(f.focusable@, wanted) == first_such(f.focusable@.skip(i as int), wanted),
        decreases f.focusable@.len() - i,
    {
        assert(f.focusable@.skip(i as int).drop_first() =~= f.focusable@.skip(i + 1));
        assert(f.focusable@.skip(i as int)[0] == f.focusable@[i as int]);
        let id = f.focusable[i];
        let hit = match find_scope(&f.scopes, id) {
            Some(scope) => recall(memory, scope) == Some(id),
            None => false,
        };
        if hit {
            return Some(id);
        }
        i = i + 1;
    }
    None
}

/// Focus after a frame was painted; see [`settled`].
pub fn settle(state: FocusState, f: &FocusFacts) -> (next: FocusState)
    ensures
        next@ == settled(state@, *f),
{
    let FocusState { focused, pending, memory, key_capture, pointer_capture } = state;
    let named = match &pending {
        Some(name) => match named_focusable(f, name.as_str()) {
            Some(t) => Some(t),
            None => focused,
        },
        None => focused,
    };
    let (kept, memory) = match named {
        Some(id) => if holds(&f.focusable, id) {
            let memory = match find_scope(&f.scopes, id) {
                Some(scope) => remember_in(memory, scope, id),
                None => memory,
            };
            (named, memory)
        } else {
            (None, memory)
        },
        None => (None, memory),
    };
    let focused = match kept {
        None => first_remembered(f, &memory),
        Some(_) => kept,
    };
    let key_capture = match key_capture {
        Some(c) => if holds(&f.painted, c) { key_capture } else { None },
        None => None,
    };
    let pointer_capture = match pointer_capture {
        Some(c) => if holds(&f.painted, c) { pointer_capture } else { None },
        None => None,
    };
    FocusState { focused, pending: None, memory, key_capture, pointer_capture }
}

proof fn lemma_first_such_is_one_of(ids: Seq<u64>, wanted: spec_fn(u64) -> bool)
    ensures
        first_such(ids, wanted) matches Some(id) ==> ids.contains(id) && wanted(id),
    decreases ids.len(),
{
    if ids.len() > 0 && !wanted(ids[0]) {
        lemma_first_such_is_one_of(ids.drop_first(), wanted);
        if let Some(id) = first_such(ids.drop_first(), wanted) {
            let k = choose|k: int| 0 <= k < ids.drop_first().len() && ids.drop_first()[k] == id;
            assert(ids[k + 1] == id);
        }
    } else if ids.len() > 0 {
        assert(ids[0] == ids[0]);
    }
}

/// A name asked for before its widget appears is not lost: the focus stays where it was until
/// a frame shows a focusable widget of that name, and then that widget gets the focus.
pub proof fn lemma_a_waiting_name_lands_on_its_widget(focused: Option<u64>, pending: Option<Seq<char>>, before: FocusFacts, after: FocusFacts, name: Seq<char>, s: FocusView)
    requires
        named_spec(before, name) is None,
        s.pending == Some(name),
        named_spec(after, name) is Some,
    ensures
        focus_named_spec(focused, pending, before, name) == (focused, Some(name)),
        settled(s, after).focused == named_spec(after, name),
        settled(s, after).pending is None,
{
    lemma_first_such_is_one_of(after.focusable@, |id: u64| name_of(after.names@, id) == Some(name));
}

proof fn lemma_first_such_is_first(ids: Seq<u64>, wanted: spec_fn(u64) -> bool)
    ensures
        first_such(ids, wanted) is None <==> forall|i: int| 0 <= i < ids.len() ==> !wanted(#[trigger] ids[i]),
        first_such(ids, wanted) matches Some(id) ==> exists|i: int|
            0 <= i < ids.len() && #[trigger] ids[i] == id && wanted(id) && forall|j: int| 0 <= j < i ==> !wanted(#[trigger] ids[j]),
    decreases ids.len(),
{
    if ids.len() > 0 {
        if wanted(ids[0]) {
            assert(ids[0] == ids[0]);
        } else {
            let rest = ids.drop_first();
            lemma_first_such_is_first(rest, wanted);
            assert forall|i: int| 0 < i < ids.len() implies ids[i] == #[trigger] rest[i - 1] by {}
            if let Some(id) = first_such(rest, wanted) {
                let k = choose|k: int|
                    0 <= k < rest.len() && #[trigger] rest[k] == id && wanted(id) && forall|j: int| 0 <= j < k ==> !wanted(#[trigger] rest[j]);
                assert(ids[k + 1] == id);
                assert forall|j: int| 0 <= j < k + 1 implies !wanted(#[trigger] ids[j]) by {
                    if j > 0 {
                        assert(ids[j] == rest[j - 1]);
                    }
                }
            } else {
                assert forall|i: int| 0 <= i < ids.len() implies !wanted(#[trigger] ids[i]) by {
                    if i > 0 {
                        assert(ids[i] == rest[i - 1]);
                    }
                }
            }
        }
    }
}

/// Whether the scope widget `id` lies in recalls `id` in `memory`.
pub open spec fn remembered(f: FocusFacts, memory: Seq<(u64, u64)>, id: u64) -> bool {
    scope_of(f.scopes@, id) matches Some(scope) && recalled(memory, scope) == Some(id)
}

/// With no focus and no name waiting, a painted frame gives the focus back to what a scope
/// remembers, however the focus was lost: to the first focusable widget, in focus order, whose
/// scope recalls it. The focus stays empty only when no focusable widget is recalled, and the
/// memory is left as it was.
pub proof fn lemma_focus_returns_to_what_a_scope_remembers(s: FocusView, f: FocusFacts)
    requires
        s.focused is None,
        s.pending is None,
    ensures
        settled(s, f).memory == s.memory,
        settled(s, f).focused is None <==> forall|i: int|
            0 <= i < f.focusable@.len() ==> !remembered(f, s.memory, #[trigger] f.focusable@[i]),
        settled(s, f).focused matches Some(id) ==> exists|i: int|
            0 <= i < f.focusable@.len() && #[trigger] f.focusable@[i] == id && remembered(f, s.memory, id)
                && forall|j: int| 0 <= j < i ==> !remembered(f, s.memory, #[trigger] f.focusable@[j]),
{
    let wanted = |id: u64| scope_of(f.scopes@, id) matches Some(scope) && recalled(s.memory, scope) == Some(id);
    lemma_first_such_is_first(f.focusable@, wanted);
    assert(settled(s, f).focused == first_such(f.focusable@, wanted));
}

} // verus!
