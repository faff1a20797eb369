//! Input idleness: when the user last did something in this terminal, and which of the
//! silences the view watches have begun or ended.
//!
//! The view of each frame declares watches, each by the length of silence it waits for, and
//! may read how long the terminal has been idle. A watch is told once when its silence is
//! reached and once when input ends it. Times are nanoseconds on the engine's clock, which starts
//! at zero; watches are given by index into the latest frame's list.

use vstd::prelude::*;

verus! {

/// How far apart the frames of a view that reads idleness are, in nanoseconds: the value it
/// shows is never more than this out of date.
pub const READ_STEP: u64 = 1_000_000_000;

/// What the engine keeps about idleness between frames.
#[verifier::ext_equal]
pub struct IdleView {
    /// When the last input arrived, or zero, the start of the clock.
    pub last_input: u64,
    /// The silence each watch of the latest frame waits for.
    pub watches: Seq<u64>,
    /// The silence of every watch told that the current silence began, so it is told only once.
    pub told: Seq<u64>,
    /// When the view that reads idleness needs its next frame.
    pub redraw_at: Option<u64>,
    /// A handoff was taken out of the queue; its end counts as input.
    pub handed_off: bool,
}

/// `now - since`, or zero when `since` is later.
pub open spec fn elapsed(now: u64, since: u64) -> u64 {
    if now >= since {
        (now - since) as u64
    } else {
        0
    }
}

/// When a view that reads idleness at `now`, silent since `last_input`, needs its next frame:
/// at the next whole step of silence, unless that is past the clock's last moment.
pub open spec fn next_read(last_input: u64, now: u64) -> Option<u64> {
    let rest = READ_STEP - elapsed(now, last_input) % READ_STEP;
    if now + rest <= u64::MAX {
        Some((now + rest) as u64)
    } else {
        None
    }
}

/// Whether watch `i` of `s` waits for its silence to be reached: it was not told yet, and the
/// silence ends within the clock.
pub open spec fn waiting(s: IdleView, i: int) -> bool {
    0 <= i < s.watches.len() && !s.told.contains(s.watches[i]) && s.last_input + s.watches[i] <= u64::MAX
}

/// Whether the engine has something to wake for at `t`.
pub open spec fn wakes_at(s: IdleView, t: u64) -> bool {
    (exists|i: int| waiting(s, i) && s.last_input + s.watches[i] == t) || s.redraw_at == Some(t)
}

/// The indices below `n` of the watches of `watches` whose silence is in `told`.
pub open spec fn told_indices(watches: Seq<u64>, told: Seq<u64>, n: int) -> Seq<usize>
    decreases n,
{
    if n <= 0 {
        Seq::empty()
    } else {
        told_indices(watches, told, n - 1) + if told.contains(watches[n - 1]) {
            seq![(n - 1) as usize]
        } else {
            Seq::empty()
        }
    }
}

/// Whether a watch waiting for `after` is due after `silent` of silence, not having been told.
pub open spec fn is_due(after: u64, told: Seq<u64>, silent: u64) -> bool {
    after <= silent && !told.contains(after)
}

/// The indices below `n` of the watches that are due.
pub open spec fn due_indices(watches: Seq<u64>, told: Seq<u64>, silent: u64, n: int) -> Seq<usize>
    decreases n,
{
    if n <= 0 {
        Seq::empty()
    } else {
        due_indices(watches, told, silent, n - 1) + if is_due(watches[n - 1], told, silent) {
            seq![(n - 1) as usize]
        } else {
            Seq::empty()
        }
    }
}

/// The silences of the watches below `n` that are due, in the watches' order.
pub open spec fn due_afters(watches: Seq<u64>, told: Seq<u64>, silent: u64, n: int) -> Seq<u64>
    decreases n,
{
    if n <= 0 {
        Seq::empty()
    } else {
        due_afters(watches, told, silent, n - 1) + if is_due(watches[n - 1], told, silent) {
            seq![watches[n - 1]]
        } else {
            Seq::empty()
        }
    }
}

/// The state after input at `now`, and the watches told that their silence ended.
pub open spec fn after_input(s: IdleView, now: u64) -> (IdleView, Seq<usize>) {
    (
        IdleView { last_input: now, told: Seq::empty(), ..s },
        told_indices(s.watches, s.told, s.watches.len() as int),
    )
}

/// The state after waking at `now`, the watches told that their silence ended (the end of a
/// handoff counts as input) and those told that it began.
pub open spec fn after_wake(s: IdleView, now: u64) -> (IdleView, Seq<usize>, Seq<usize>) {
    let (t, ended) = if s.handed_off {
        after_input(IdleView { handed_off: false, ..s }, now)
    } else {
        (s, Seq::empty())
    };
    let silent = elapsed(now, t.last_input);
    let n = t.watches.len() as int;
    (
        IdleView { told: t.told + due_afters(t.watches, t.told, silent, n), ..t },
        ended,
        due_indices(t.watches, t.told, silent, n),
    )
}

/// What the engine keeps about idleness between frames.
pub struct Idle {
    last_input: u64,
    watches: Vec<u64>,
    told: Vec<u64>,
    redraw_at: Option<u64>,
    handed_off: bool,
}

impl View for Idle {
    type V = IdleView;

    closed spec fn view(&self) -> IdleView {
        IdleView {
            last_input: self.last_input,
            watches: self.watches@,
            told: self.told@,
            redraw_at: self.redraw_at,
            handed_off: self.handed_off,
        }
    }
}

/// Whether `values` holds `value`.
fn holds(values: &Vec<u64>, value: u64) -> (found: bool)
    ensures
        found == values@.contains(value),
{
    let mut i: usize = 0;
    while i < values.len()
        invariant
            i <= values@.len(),
            forall|j: int| 0 <= j < i ==> values@[j] != value,
        decreases values@.len() - i,
    {
        if values[i] == value {
            return true;
        }
        i = i + 1;
    }
    false
}

impl Idle {
    /// Nothing known yet: silent since the start of the clock, no watches, no frame to draw.
    pub fn new() -> (idle: Self)
        ensures
            idle@ == (IdleView {
                last_input: 0,
                watches: Seq::empty(),
                told: Seq::empty(),
                redraw_at: None,
                handed_off: false,
            }),
    {
        Idle { last_input: 0, watches: Vec::new(), told: Vec::new(), redraw_at: None, handed_off: false }
    }

    /// How long the terminal has been silent at `now`: what the view of a frame at `now` reads.
    pub fn silence(&self, now: u64) -> (silent: u64)
        ensures
            silent == elapsed(now, self@.last_input),
    {
        if now >= self.last_input {
            now - self.last_input
        } else {
            0
        }
    }

    /// Keeps what the view of the frame at `now` asked for: its watches, and whether it read
    /// idleness, which draws the next frame at the next whole second of silence.
    pub fn settle(&mut self, watches: Vec<u64>, reads: bool, now: u64)
        ensures
            final(self)@ == (IdleView {
                watches: watches@,
                redraw_at: if reads { next_read(old(self)@.last_input, now) } else { None },
                ..old(self)@
            }),
            final(self)@.redraw_at matches Some(t) ==> t > now,
    {
        self.watches = watches;
        self.redraw_at = if reads {
            let silent = self.silence(now);
            let into_step = silent % READ_STEP;
            let rest = READ_STEP - into_step;
            now.checked_add(rest)
        } else {
            None
        };
    }

    /// When the engine must wake next for idleness: the next watch to reach its silence, or the
    /// next frame of a view that reads it. A silence that would end past the clock's last
    /// moment is never reached.
    pub fn deadline(&self) -> (next: Option<u64>)
        ensures
            next is None <==> !(exists|t: u64| wakes_at(self@, t)),
            next matches Some(d) ==> wakes_at(self@, d) && forall|t: u64| wakes_at(self@, t) ==> d <= t,
    {
        let mut best: Option<u64> = None;
        let mut i: usize = 0;
        while i < self.watches.len()
            invariant
                i <= self@.watches.len(),
                best is None <==> !(exists|j: int| 0 <= j < i && waiting(self@, j)),
                best matches Some(d) ==> (exists|j: int|
                    0 <= j < i && waiting(self@, j) && self@.last_input + self@.watches[j] == d),
                best matches Some(d) ==> forall|j: int|
                    0 <= j < i && waiting(self@, j) ==> d <= self@.last_input + self@.watches[j],
            decreases self@.watches.len() - i,
        {
            let after = self.watches[i];
            let ghost old_best = best;
            if !holds(&self.told, after) {
                match self.last_input.checked_add(after) {
                    Some(at) => {
                        assert(waiting(self@, i as int));
                        match best {
                            Some(d) => {
                                if at < d {
                                    best = Some(at);
                                }
                            },
                            None => {
                                best = Some(at);
                            },
                        }
                    },
                    None => {
                        assert(!waiting(self@, i as int));
                    },
                }
            } else {
                assert(!waiting(self@, i as int));
            }
            proof {
                assert forall|j: int| 0 <= j < i + 1 && waiting(self@, j) implies best matches Some(d) && d
                    <= self@.last_input + self@.watches[j] by {
                    if j < i {
                        assert(old_best is Some);
                    }
                }
                if best != old_best {
                    assert(waiting(self@, i as int) && self@.last_input + self@.watches[i as int] == best->0);
                } else if best is Some {
                    let j = choose|j: int| 0 <= j < i && waiting(self@, j) && self@.last_input + self@.watches[j] == best->0;
                    assert(0 <= j < i + 1 && waiting(self@, j));
                }
            }
            i = i + 1;
        }
        let next = match (best, self.redraw_at) {
            (Some(watch), Some(redraw)) => Some(if watch < redraw { watch } else { redraw }),
            (Some(watch), None) => Some(watch),
            (None, redraw) => redraw,
        };
        proof {
            if next is Some {
                let d = next->0;
                if self@.redraw_at != Some(d) {
                    let j = choose|j: int| 0 <= j < i && waiting(self@, j) && self@.last_input + self@.watches[j] == d;
                    assert(wakes_at(self@, d));
                }
                assert(wakes_at(self@, d));
            }
            assert forall|t: u64| wakes_at(self@, t) implies next matches Some(d) && d <= t by {
                if self@.redraw_at != Some(t) {
                    let j = choose|j: int| waiting(self@, j) && self@.last_input + self@.watches[j] == t;
                    assert(0 <= j < i);
                }
            }
        }
        next
    }

    /// Notes that a handoff is about to run.
    pub fn handing_off(&mut self)
        ensures
            final(self)@ == (IdleView { handed_off: true, ..old(self)@ }),
    {
        self.handed_off = true;
    }

    /// Starts a new silence at `now`. Returns the watches told that the last silence began,
    /// which are now told it ended, in order.
    pub fn input_at(&mut self, now: u64) -> (ended: Vec<usize>)
        ensures
            (final(self)@, ended@) == after_input(old(self)@, now),
    {
        self.last_input = now;
        let mut ended: Vec<usize> = Vec::new();
        if self.told.len() == 0 {
            proof {
                lemma_told_indices_empty(self@.watches, self@.told, self@.watches.len() as int);
            }
            assert(ended@ =~= told_indices(self@.watches, self@.told, self@.watches.len() as int));
            return ended;
        }
        let mut told: Vec<u64> = Vec::new();
        std::mem::swap(&mut told, &mut self.told);
        let mut i: usize = 0;
        while i < self.watches.len()
            invariant
                i <= self@.watches.len(),
                ended@ == told_indices(self@.watches, told@, i as int),
            decreases self@.watches.len() - i,
        {
            if holds(&told, self.watches[i]) {
                ended.push(i);
            }
            assert(told_indices(self@.watches, told@, i + 1) =~= told_indices(self@.watches, told@, i as int) + if told@.contains(self@.watches[i as int]) {
                seq![i]
            } else {
                Seq::<usize>::empty()
            });
            i = i + 1;
        }
        ended
    }

    /// Starts a new silence if `input` tells that the event arriving at `now` is the user doing
    /// something in this terminal; returns the watches told that the last silence ended.
    pub fn note_input(&mut self, input: bool, now: u64) -> (ended: Vec<usize>)
        ensures
            input ==> (final(self)@, ended@) == after_input(old(self)@, now),
            !input ==> final(self)@ == old(self)@ && ended@.len() == 0,
    {
        if input {
            self.input_at(now)
        } else {
            Vec::new()
        }
    }

    /// Delivers what idleness has due at `now`: the end of a handoff counts as input, and every
    /// watch whose silence has been reached and was not told yet is told it began. Returns the
    /// watches told that a silence ended, then those told that one began.
    pub fn wake(&mut self, now: u64) -> (told: (Vec<usize>, Vec<usize>))
        ensures
            final(self)@ == after_wake(old(self)@, now).0,
            told.0@ == after_wake(old(self)@, now).1,
            told.1@ == after_wake(old(self)@, now).2,
    {
        let ended = if self.handed_off {
            self.handed_off = false;
            self.input_at(now)
        } else {
            Vec::new()
        };
        let silent = self.silence(now);
        let ghost mid = self@;
        let mut began: Vec<usize> = Vec::new();
        let mut due: Vec<u64> = Vec::new();
        let mut i: usize = 0;
        while i < self.watches.len()
            invariant
                i <= self@.watches.len(),
                began@ == due_indices(self@.watches, self@.told, silent, i as int),
                due@ == due_afters(self@.watches, self@.told, silent, i as int),
            decreases self@.watches.len() - i,
        {
            let after = self.watches[i];
            if after <= silent && !holds(&self.told, after) {
                began.push(i);
                due.push(after);
            }
            assert(due_indices(self@.watches, self@.told, silent, i + 1) =~= due_indices(self@.watches, self@.told, silent, i as int) + if is_due(after, self@.told, silent) {
                seq![i]
            } else {
                Seq::<usize>::empty()
            });
            assert(due_afters(self@.watches, self@.told, silent, i + 1) =~= due_afters(self@.watches, self@.told, silent, i as int) + if is_due(after, self@.told, silent) {
                seq![after]
            } else {
                Seq::<u64>::empty()
            });
            i = i + 1;
        }
        let mut j: usize = 0;
        assert(mid.told + due@.take(0) =~= mid.told);
        while j < due.len()
            invariant
                j <= due@.len(),
                self@ == (IdleView { told: mid.told + due@.take(j as int), ..mid }),
            decreases due@.len() - j,
        {
            self.told.push(due[j]);
            assert(due@.take(j + 1) =~= due@.take(j as int).push(due@[j as int]));
            j = j + 1;
        }
        assert(due@.take(j as int) =~= due@);
        (ended, began)
    }
}

proof fn lemma_told_indices_empty(watches: Seq<u64>, told: Seq<u64>, n: int)
    requires
        told.len() == 0,
    ensures
        told_indices(watches, told, n) == Seq::<usize>::empty(),
    decreases n,
{
    if n > 0 {
        lemma_told_indices_empty(watches, told, n - 1);
        assert(!told.contains(watches[n - 1]));
        assert(told_indices(watches, told, n) =~= Seq::<usize>::empty());
    }
}

proof fn lemma_due_afters_told(watches: Seq<u64>, told: Seq<u64>, silent: u64, n: int, k: int)
    requires
        0 <= k < n <= watches.len(),
        is_due(watches[k], told, silent),
    ensures
        due_afters(watches, told, silent, n).contains(watches[k]),
    decreases n,
{
    if k < n - 1 {
        lemma_due_afters_told(watches, told, silent, n - 1, k);
        let prev = due_afters(watches, told, silent, n - 1);
        let j = choose|j: int| 0 <= j < prev.len() && prev[j] == watches[k];
        assert(due_afters(watches, told, silent, n)[j] == watches[k]);
    } else {
        let all = due_afters(watches, told, silent, n);
        assert(all[all.len() - 1] == watches[k]);
    }
}

proof fn lemma_none_due(watches: Seq<u64>, told: Seq<u64>, silent: u64, n: int)
    requires
        forall|k: int| 0 <= k < n ==> !is_due(#[trigger] watches[k], told, silent),
    ensures
        due_indices(watches, told, silent, n) == Seq::<usize>::empty(),
    decreases n,
{
    if n > 0 {
        lemma_none_due(watches, told, silent, n - 1);
        assert(due_indices(watches, told, silent, n) =~= Seq::<usize>::empty());
    }
}

/// A silence is announced once: waking again at the same moment, with no input between,
/// tells no watch that its silence began.
pub proof fn lemma_a_silence_is_announced_once(s: IdleView, now: u64)
    ensures
        after_wake(after_wake(s, now).0, now).2 == Seq::<usize>::empty(),
{
    let (t, _, _) = after_wake(s, now);
    let n = t.watches.len() as int;
    let silent = elapsed(now, t.last_input);
    let (mid, _) = if s.handed_off {
        after_input(IdleView { handed_off: false, ..s }, now)
    } else {
        (s, Seq::empty())
    };
    let added = due_afters(mid.watches, mid.told, silent, n);
    assert forall|k: int| 0 <= k < n implies !is_due(#[trigger] t.watches[k], t.told, silent) by {
        if is_due(t.watches[k], mid.told, silent) {
            lemma_due_afters_told(mid.watches, mid.told, silent, n, k);
            let j = choose|j: int| 0 <= j < added.len() && added[j] == t.watches[k];
            assert(t.told[mid.told.len() + j] == t.watches[k]);
        } else if t.watches[k] <= silent {
            let j = choose|j: int| 0 <= j < mid.told.len() && mid.told[j] == t.watches[k];
            assert(t.told[j] == t.watches[k]);
        }
    }
    lemma_none_due(t.watches, t.told, silent, n);
}

/// Input ends only silences that were announced: every watch told that its silence ended had
/// been told that it began.
pub proof fn lemma_only_announced_silences_end(s: IdleView, now: u64, k: int)
    requires
        s.watches.len() <= usize::MAX,
        0 <= k < after_input(s, now).1.len(),
    ensures
        s.told.contains(s.watches[after_input(s, now).1[k] as int]),
{
    lemma_told_indices_sound(s.watches, s.told, s.watches.len() as int);
}

proof fn lemma_told_indices_sound(watches: Seq<u64>, told: Seq<u64>, n: int)
    requires
        n <= watches.len(),
        n <= usize::MAX,
    ensures
        forall|k: int|
            0 <= k < told_indices(watches, told, n).len() ==> {
                let i = #[trigger] told_indices(watches, told, n)[k] as int;
                0 <= i < n && told.contains(watches[i])
            },
    decreases n,
{
    if n > 0 {
        lemma_told_indices_sound(watches, told, n - 1);
        let prev = told_indices(watches, told, n - 1);
        let all = told_indices(watches, told, n);
        assert forall|k: int| 0 <= k < all.len() implies {
            let i = #[trigger] all[k] as int;
            0 <= i < n && told.contains(watches[i])
        } by {
            if k < prev.len() {
                assert(all[k] == prev[k]);
            } else {
                assert(told.contains(watches[n - 1]));
                assert(all[k] == (n - 1) as usize);
            }
        }
    }
}

} // verus!
