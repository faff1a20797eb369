//! How often the runtime draws: the frame limit an application sets and its defaults.

use vstd::prelude::*;

verus! {

/// Frames a second the default draws locally: as many as a screen at 60 Hz shows.
pub const LOCAL: u32 = 60;

/// Frames a second the default draws over a remote connection: fast enough to read a scrolling
/// program by, cheap enough for a link that carries every frame.
pub const REMOTE: u32 = 20;

/// Nanoseconds in a second.
pub const SECOND_NANOS: u64 = 1_000_000_000;

/// How many frames a second the runtime draws at most, for a local and for a remote connection.
///
/// A limit never holds back a frame that answers input; it merges the frames the application's
/// own work causes. The default draws 60 frames a second locally and 20 over a remote
/// connection.
#[derive(Debug, Clone, Copy, PartialEq, Eq)]
pub struct FrameLimit {
    /// Frames a second at the machine the application runs on; `None` is no limit.
    local: Option<u32>,
    /// Frames a second over a remote connection; `None` is no limit.
    remote: Option<u32>,
}

/// A count of frames as a limit: zero frames is no limit, since a limit of no frames would draw
/// nothing at all.
pub open spec fn limit_of(frames: u32) -> Option<u32> {
    if frames > 0 { Some(frames) } else { None }
}

/// The shortest gap between two frames, in nanoseconds, that `frames` a second allow.
pub open spec fn gap_of(frames: Option<u32>) -> Option<u64> {
    match frames {
        Some(n) => if n > 0 { Some((SECOND_NANOS / (n as u64)) as u64) } else { None },
        None => None,
    }
}

impl FrameLimit {
    /// The frames a second allowed locally; `None` is no limit.
    pub closed spec fn local_limit(self) -> Option<u32> {
        self.local
    }

    /// The frames a second allowed over a remote connection; `None` is no limit.
    pub closed spec fn remote_limit(self) -> Option<u32> {
        self.remote
    }

    /// The limit on the connection in hand.
    pub open spec fn limit_on(self, remote: bool) -> Option<u32> {
        if remote { self.remote_limit() } else { self.local_limit() }
    }

    /// Every limit holds at least one frame a second.
    pub open spec fn wf(self) -> bool {
        &&& (self.local_limit() matches Some(n) ==> n > 0)
        &&& (self.remote_limit() matches Some(n) ==> n > 0)
    }

    /// The default: 60 frames a second at the machine, 20 over a remote connection.
    pub fn default_limit() -> (limit: Self)
        ensures
            limit.wf(),
            limit.local_limit() == Some(LOCAL),
            limit.remote_limit() == Some(REMOTE),
    {
        FrameLimit { local: Some(LOCAL), remote: Some(REMOTE) }
    }

    /// The same number of frames a second on every connection. A `frames` of zero is no limit,
    /// the way [`FrameLimit::none`] is.
    pub fn per_second(frames: u32) -> (limit: Self)
        ensures
            limit.wf(),
            limit.local_limit() == limit_of(frames),
            limit.remote_limit() == limit_of(frames),
    {
        let frames = if frames > 0 { Some(frames) } else { None };
        FrameLimit { local: frames, remote: frames }
    }

    /// No limit: every frame the application asks for is drawn.
    pub fn none() -> (limit: Self)
        ensures
            limit.wf(),
            limit.local_limit() == None::<u32>,
            limit.remote_limit() == None::<u32>,
    {
        FrameLimit { local: None, remote: None }
    }

    /// Draws `frames` a second over a remote connection instead, and leaves the local number as
    /// it is. A `frames` of zero lifts the limit for remote connections.
    pub fn remote(self, frames: u32) -> (limit: Self)
        ensures
            self.wf() ==> limit.wf(),
            limit.local_limit() == self.local_limit(),
            limit.remote_limit() == limit_of(frames),
    {
        FrameLimit { local: self.local, remote: if frames > 0 { Some(frames) } else { None } }
    }

    /// How many frames a second this limit allows on the connection in hand; `None` is no limit.
    pub fn frames_per_second(self, remote: bool) -> (frames: Option<u32>)
        ensures
            frames == self.limit_on(remote),
            self.wf() ==> frames != Some(0u32),
    {
        if remote { self.remote } else { self.local }
    }

    /// The shortest time between two frames this limit allows, in nanoseconds, or `None` when it
    /// allows any: a second divided by the frames.
    pub fn gap(self, remote: bool) -> (gap: Option<u64>)
        ensures
            gap == gap_of(self.limit_on(remote)),
    {
        match self.frames_per_second(remote) {
            Some(frames) => if frames > 0 { Some(SECOND_NANOS / (frames as u64)) } else { None },
            None => None,
        }
    }
}

impl Default for FrameLimit {
    fn default() -> (limit: Self)
        ensures
            limit.wf(),
            limit.local_limit() == Some(LOCAL),
            limit.remote_limit() == Some(REMOTE),
    {
        FrameLimit::default_limit()
    }
}

/// A limit is its two numbers and nothing more: two limits that allow the same frames locally and
/// remotely are the same value, so [`FrameLimit::none`] and [`FrameLimit::per_second`] of zero
/// are one limit.
pub proof fn lemma_a_limit_is_its_numbers(a: FrameLimit, b: FrameLimit)
    requires
        a.local_limit() == b.local_limit(),
        a.remote_limit() == b.remote_limit(),
    ensures
        a == b,
{
}

/// A limit made by [`FrameLimit::default_limit`], [`FrameLimit::per_second`],
/// [`FrameLimit::none`] and [`FrameLimit::remote`], in any order, never allows zero frames a
/// second, so its gap is a second divided by its frames whenever it has a limit.
pub proof fn lemma_a_limit_is_never_zero(limit: FrameLimit, remote: bool)
    requires
        limit.wf(),
    ensures
        limit.limit_on(remote) != Some(0u32),
        limit.limit_on(remote) matches Some(n) ==> gap_of(limit.limit_on(remote)) == Some((SECOND_NANOS / (n as u64)) as u64),
        limit.limit_on(remote) is None ==> gap_of(limit.limit_on(remote)) is None,
{
}

/// A limit of `n` frames a second never lets more than `n` frames into a second: `n` gaps fit
/// in a second, and the gap is never zero for a limit of at most a billion frames.
pub proof fn lemma_gap_fits_second(frames: u32)
    requires
        0 < frames <= SECOND_NANOS,
    ensures
        gap_of(Some(frames)) matches Some(gap) && gap * (frames as int) <= SECOND_NANOS && gap > 0,
{
    let g = SECOND_NANOS / (frames as u64);
    assert(g * (frames as int) <= SECOND_NANOS) by (nonlinear_arith)
        requires g == SECOND_NANOS / (frames as u64), frames > 0;
    assert(g > 0) by (nonlinear_arith)
        requires g == SECOND_NANOS / (frames as u64), frames > 0, frames <= SECOND_NANOS;
}

} // verus!
