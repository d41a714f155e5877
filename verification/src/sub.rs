use vstd::prelude::*;
use crate::log::{log_wf, Frame, FrameV};

verus! {

/// Where a subscription starts and whether it stays live.
#[derive(Clone, Copy, Debug)]
pub struct ReadOptions {
    /// Keep delivering new frames indefinitely, rather than stop once caught up.
    pub follow: bool,
    /// Start at the log's current end, skipping history.
    pub tail: bool,
    /// Resume cursor: deliver only frames with id greater than this.
    pub last_id: Option<u64>,
}

/// The per-subscriber state machine: replaying stored history, live, or done.
#[derive(Clone, Copy, Debug)]
pub enum SubPhase {
    /// Streaming stored history; `cursor` is the next log index to hand out.
    Replaying { cursor: usize },
    /// Receiving newly appended frames as they occur.
    Live,
    /// Terminated; `done` is the log index delivery stopped at.
    Closed { done: usize },
}

/// The mathematical value of a subscription.
pub ghost struct SubV {
    pub token: u64,
    /// Frames with id at most `anchor` are outside this subscription's range.
    pub anchor: int,
    pub follow: bool,
    pub phase: SubPhase,
    /// Every frame handed to this subscriber so far, in delivery order.
    pub delivered: Seq<FrameV>,
}

/// One registered subscriber, as the store tracks it.
pub struct Subscription {
    pub token: u64,
    pub anchor: usize,
    pub follow: bool,
    pub phase: SubPhase,
    pub delivered: Ghost<Seq<FrameV>>,
}

impl View for Subscription {
    type V = SubV;

    open spec fn view(&self) -> SubV {
        SubV {
            token: self.token,
            anchor: self.anchor as int,
            follow: self.follow,
            phase: self.phase,
            delivered: self.delivered@,
        }
    }
}

/// The views of a sequence of subscriptions, in order.
pub open spec fn subs_view(s: Seq<Subscription>) -> Seq<SubV> {
    Seq::new(s.len(), |i: int| s[i]@)
}

/// The delivery discipline a subscription obeys against the log: what it has
/// been handed is exactly one contiguous window of the log, starting just
/// past its anchor and reaching to its cursor (replaying), to the log's end
/// (live), or to where it stopped (closed).
pub open spec fn sub_wf(log: Seq<FrameV>, s: SubV) -> bool {
    &&& 0 <= s.anchor <= log.len()
    &&& match s.phase {
        SubPhase::Replaying { cursor } => {
            &&& s.anchor <= cursor <= log.len()
            &&& s.delivered == log.subrange(s.anchor, cursor as int)
        },
        SubPhase::Live => s.delivered == log.subrange(s.anchor, log.len() as int),
        SubPhase::Closed { done } => {
            &&& s.anchor <= done <= log.len()
            &&& s.delivered == log.subrange(s.anchor, done as int)
        },
    }
}

/// The subscription that a set of read options creates against a log of
/// length `len`: live at the end for tail reads, else replaying from the
/// resume point, with nothing delivered yet.
pub open spec fn new_sub_v(options: ReadOptions, len: int, token: u64) -> SubV {
    if options.tail {
        SubV {
            token,
            anchor: len,
            follow: options.follow,
            phase: SubPhase::Live,
            delivered: Seq::empty(),
        }
    } else {
        let a: int = match options.last_id {
            Some(n) => n as int,
            None => 0,
        };
        SubV {
            token,
            anchor: a,
            follow: options.follow,
            phase: SubPhase::Replaying { cursor: a as usize },
            delivered: Seq::empty(),
        }
    }
}

/// Whether the read options are acceptable against a log of length `len`:
/// a resume cursor must not lie beyond the newest assigned id (it is ignored
/// when tail is set).
pub open spec fn options_ok(options: ReadOptions, len: int) -> bool {
    options.tail || (match options.last_id {
        Some(n) => n <= len,
        None => true,
    })
}

/// How one subscription changes when a frame is appended: a live subscriber
/// is handed the frame, every other subscriber is untouched; anchor, token,
/// phase and follow never change at an append.
pub open spec fn sub_after_append(s0: SubV, s1: SubV, f: FrameV) -> bool {
    &&& s1.token == s0.token
    &&& s1.anchor == s0.anchor
    &&& s1.follow == s0.follow
    &&& s1.phase == s0.phase
    &&& s1.delivered == if s0.phase is Live {
        s0.delivered.push(f)
    } else {
        s0.delivered
    }
}

/// What one pump step hands back for a subscription.
#[derive(Debug)]
pub enum SubEvent {
    /// The next frame in this subscription's range.
    Deliver(Frame),
    /// Replay has caught up with the log: the subscription switched to live
    /// delivery at the same serialization point appends use.
    Live,
    /// The subscription is done: a bounded read completed, or it was already
    /// closed.
    Closed,
    /// A live, following subscription with nothing to replay: new frames
    /// arrive through append fan-out instead.
    Idle,
    /// No subscription carries this token.
    Unknown,
}

/// How one pump step changes a subscription and what it returns: the
/// replay-to-live handoff happens exactly when the cursor reaches the log's
/// end, delivering nothing twice and dropping nothing.
pub open spec fn pump_rel(log: Seq<FrameV>, s0: SubV, s1: SubV, ev: SubEvent) -> bool {
    &&& s1.token == s0.token
    &&& s1.anchor == s0.anchor
    &&& s1.follow == s0.follow
    &&& match s0.phase {
        SubPhase::Replaying { cursor } => {
            if cursor < log.len() {
                &&& (ev matches SubEvent::Deliver(f) && f@ == log[cursor as int])
                &&& s1.phase == (SubPhase::Replaying { cursor: (cursor + 1) as usize })
                &&& s1.delivered == s0.delivered.push(log[cursor as int])
            } else if s0.follow {
                &&& ev is Live
                &&& s1.phase == SubPhase::Live
                &&& s1.delivered == s0.delivered
            } else {
                &&& ev is Closed
                &&& s1.phase == (SubPhase::Closed { done: cursor })
                &&& s1.delivered == s0.delivered
            }
        },
        SubPhase::Live => {
            if s0.follow {
                &&& ev is Idle
                &&& s1 == s0
            } else {
                &&& ev is Closed
                &&& s1.phase == (SubPhase::Closed { done: log.len() as usize })
                &&& s1.delivered == s0.delivered
            }
        },
        SubPhase::Closed { done } => {
            &&& ev is Closed
            &&& s1 == s0
        },
    }
}

/// A subscriber observes its window of the log exactly: the ids it has been
/// handed run contiguously upward from one past its anchor — strictly
/// increasing, no gap, no duplicate, each id at most once even across the
/// replay-to-live handoff — and a live subscriber has been handed every
/// frame beyond its anchor that exists.
pub proof fn lemma_delivery_discipline(log: Seq<FrameV>, s: SubV)
    requires
        log_wf(log),
        sub_wf(log, s),
    ensures
        forall|j: int|
            0 <= j < s.delivered.len() ==> (#[trigger] s.delivered[j]).id == s.anchor + j + 1,
        forall|j: int, k: int|
            0 <= j < k < s.delivered.len() ==> s.delivered[j].id < s.delivered[k].id,
        forall|j: int, k: int|
            0 <= j < s.delivered.len() && 0 <= k < s.delivered.len() && j != k
                ==> s.delivered[j].id != s.delivered[k].id,
        forall|j: int| 0 <= j < s.delivered.len() ==> (#[trigger] s.delivered[j]).id > s.anchor,
        s.phase is Live ==> s.delivered.len() == log.len() - s.anchor,
        s.phase is Live ==> forall|k: int|
            s.anchor <= k < log.len() ==> s.delivered[k - s.anchor] == log[k],
{
    match s.phase {
        SubPhase::Replaying { cursor } => {
            assert(s.delivered == log.subrange(s.anchor, cursor as int));
        },
        SubPhase::Live => {
            assert(s.delivered == log.subrange(s.anchor, log.len() as int));
        },
        SubPhase::Closed { done } => {
            assert(s.delivered == log.subrange(s.anchor, done as int));
        },
    }
    assert forall|j: int| 0 <= j < s.delivered.len() implies (#[trigger] s.delivered[j]).id == s
        .anchor + j + 1 by {
        assert(s.delivered[j] == log[s.anchor + j]);
    }
}

/// A tail subscriber never sees history: its anchor is the log length at
/// subscription time, so every frame it is ever handed was appended after
/// its subscription began.
pub proof fn lemma_tail_skips_history(log: Seq<FrameV>, s: SubV, len0: int)
    requires
        log_wf(log),
        sub_wf(log, s),
        s.anchor >= len0,
    ensures
        forall|j: int| 0 <= j < s.delivered.len() ==> (#[trigger] s.delivered[j]).id > len0,
{
    lemma_delivery_discipline(log, s);
}

} // verus!
