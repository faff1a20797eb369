//! The pace of frames: whether the loop draws now, and until when a held frame waits.
//!
//! Times are nanoseconds on the engine's clock. A frame is wanted when the view changed or a
//! moment an animation or an idle watch asked for has come. A frame that answers input, and the
//! first frame of a run, are drawn whatever the limit says; the rest wait for the gap the
//! [`FrameLimit`](crate::FrameLimit) sets since the frame before.

use vstd::prelude::*;

verus! {

/// What the engine keeps about the pace of frames.
#[derive(Debug, Clone, Copy, PartialEq, Eq)]
pub struct Pacing {
    /// When the latest frame was drawn, or `None` before the first one.
    pub last: Option<u64>,
    /// Input arrived since that frame: the next one is drawn without waiting.
    pub urgent: bool,
}

/// Whether a frame is wanted at `now`: the view changed (`dirty`), or the moment `deadline` an
/// animation or an idle watch asked for has come.
pub open spec fn wanted(dirty: bool, deadline: Option<u64>, now: u64) -> bool {
    dirty || (deadline matches Some(at) && at <= now)
}

/// The time from `since` to `now`, zero when `now` is not later.
pub open spec fn elapsed(since: u64, now: u64) -> int {
    if now >= since { now - since } else { 0 }
}

impl Pacing {
    /// Whether the limit lets a wanted frame be drawn at `now`, with `gap` nanoseconds at least
    /// between two frames (`None`: no limit).
    pub open spec fn allows(self, gap: Option<u64>, now: u64) -> bool {
        ||| self.urgent
        ||| gap is None
        ||| self.last is None
        ||| elapsed(self.last.unwrap(), now) >= gap.unwrap()
    }

    /// Whether a frame is due at `now`.
    pub open spec fn due(self, wanted: bool, gap: Option<u64>, now: u64) -> bool {
        wanted && self.allows(gap, now)
    }

    /// When the frame the limit holds back may be drawn, if one waits.
    pub open spec fn held_until(self, wanted: bool, gap: Option<u64>, now: u64) -> Option<u64> {
        if self.urgent || !wanted || gap is None || self.last is None {
            None
        } else if self.last.unwrap() + gap.unwrap() > u64::MAX {
            None
        } else if self.last.unwrap() + gap.unwrap() > now {
            Some((self.last.unwrap() + gap.unwrap()) as u64)
        } else {
            None
        }
    }

    /// The pace before the first frame: nothing drawn, nothing urgent.
    pub fn new() -> (pacing: Self)
        ensures
            pacing.last is None,
            !pacing.urgent,
    {
        Pacing { last: None, urgent: false }
    }

    /// Whether a frame is wanted at `now`.
    pub fn frame_wanted(dirty: bool, deadline: Option<u64>, now: u64) -> (frame: bool)
        ensures
            frame == wanted(dirty, deadline, now),
    {
        dirty || match deadline {
            Some(at) => at <= now,
            None => false,
        }
    }

    /// Notes that the next frame answers input, so the limit does not hold it back.
    pub fn frame_is_urgent(&mut self)
        ensures
            final(self).urgent,
            final(self).last == old(self).last,
    {
        self.urgent = true;
    }

    /// Notes the frame drawn at `now`; the limit counts from it.
    pub fn frame_drawn(&mut self, now: u64)
        ensures
            final(self).last == Some(now),
            !final(self).urgent,
    {
        self.last = Some(now);
        self.urgent = false;
    }

    /// Whether the loop should draw a frame at `now`: one is `wanted` and the limit of `gap`
    /// nanoseconds between frames allows it. A frame that answers input, and the first frame of
    /// a run, are always allowed.
    pub fn frame_due(&self, wanted: bool, gap: Option<u64>, now: u64) -> (due: bool)
        ensures
            due == self.due(wanted, gap, now),
    {
        if !wanted {
            return false;
        }
        if self.urgent {
            return true;
        }
        match (gap, self.last) {
            (Some(gap), Some(last)) => now.saturating_sub(last) >= gap,
            _ => true,
        }
    }

    /// When a frame the limit is holding back may be drawn, if one is waiting: the loop waits no
    /// longer than this. `None` while no frame waits.
    pub fn frame_deadline(&self, wanted: bool, gap: Option<u64>, now: u64) -> (at: Option<u64>)
        ensures
            at == self.held_until(wanted, gap, now),
    {
        if self.urgent || !wanted {
            return None;
        }
        let last = match self.last {
            Some(last) => last,
            None => return None,
        };
        let gap = match gap {
            Some(gap) => gap,
            None => return None,
        };
        match last.checked_add(gap) {
            Some(at) => if at > now { Some(at) } else { None },
            None => None,
        }
    }
}

/// A frame that is wanted but held back is not lost: the deadline the loop waits for exists,
/// lies after `now`, and the frame is due when it comes; before it nothing is drawn. The one
/// exception is a gap that would end past the clock's last moment, left out here.
pub proof fn lemma_held_frame_is_drawn_at_its_deadline(pacing: Pacing, gap: Option<u64>, now: u64, later: u64)
    requires
        pacing.due(true, gap, now) == false,
        pacing.last matches Some(last) && gap matches Some(g) && last + g <= u64::MAX,
        now >= pacing.last.unwrap(),
    ensures
        pacing.held_until(true, gap, now) matches Some(at) && at > now
            && (later >= at ==> pacing.due(true, gap, later))
            && (pacing.last.unwrap() <= later < at ==> !pacing.due(true, gap, later)),
{
}

/// A frame that answers input is never held back, whatever the limit.
pub proof fn lemma_urgent_frames_are_never_held(pacing: Pacing, gap: Option<u64>, now: u64)
    requires
        pacing.urgent,
    ensures
        pacing.due(true, gap, now),
        pacing.held_until(true, gap, now) is None,
{
}

/// After a frame is drawn at `now`, another wanted frame waits a whole gap: it is due at
/// `now + gap` and not a moment before.
pub proof fn lemma_a_drawn_frame_starts_the_gap(now: u64, gap: u64, later: u64)
    requires
        now <= later,
        now + gap <= u64::MAX,
    ensures
        ({
            let drawn = Pacing { last: Some(now), urgent: false };
            drawn.due(true, Some(gap), later) <==> later >= now + gap
        }),
{
}

} // verus!
