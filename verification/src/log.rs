use vstd::prelude::*;
use crate::hash::{clone_bytes, Digest};

verus! {

/// The mathematical value of a frame: what the contracts speak of.
pub ghost struct FrameV {
    pub id: u64,
    pub topic: Seq<u8>,
    pub hash: Option<Seq<u8>>,
    pub context: Option<u64>,
}

/// The view of an optional digest reference.
pub open spec fn opt_digest_view(h: Option<Digest>) -> Option<Seq<u8>> {
    match h {
        Some(d) => Some(d@),
        None => None,
    }
}

/// One immutable log record: an id assigned at append time, a topic
/// classifier, an optional reference to a blob, and an optional causal link
/// to a prior frame's id.
#[derive(Debug)]
pub struct Frame {
    pub id: u64,
    pub topic: Vec<u8>,
    pub hash: Option<Digest>,
    pub context: Option<u64>,
}

impl View for Frame {
    type V = FrameV;

    open spec fn view(&self) -> FrameV {
        FrameV {
            id: self.id,
            topic: self.topic@,
            hash: opt_digest_view(self.hash),
            context: self.context,
        }
    }
}

impl Frame {
    /// Copies a frame; the copy has exactly the same value.
    pub fn dup(&self) -> (r: Frame)
        ensures
            r@ == self@,
    {
        Frame {
            id: self.id,
            topic: clone_bytes(&self.topic),
            hash: match &self.hash {
                Some(d) => Some(d.clone()),
                None => None,
            },
            context: self.context,
        }
    }
}

/// The durable, strictly ordered sequence of frames.
pub struct Log {
    pub frames: Vec<Frame>,
}

/// The view of a sequence of frames: their mathematical values, in order.
pub open spec fn frames_view(s: Seq<Frame>) -> Seq<FrameV> {
    Seq::new(s.len(), |i: int| s[i]@)
}

impl View for Log {
    type V = Seq<FrameV>;

    open spec fn view(&self) -> Seq<FrameV> {
        frames_view(self.frames@)
    }
}

/// Gap-free ordering: the frame at index `i` carries id `i + 1`, so ids run
/// 1, 2, 3, ... with no gap and no duplicate, in append order.
pub open spec fn log_wf(log: Seq<FrameV>) -> bool {
    forall|i: int| 0 <= i < log.len() ==> (#[trigger] log[i]).id == i + 1
}

impl Log {
    pub open spec fn inv(&self) -> bool {
        log_wf(self@)
    }

    /// An empty log.
    pub fn new() -> (r: Log)
        ensures
            r.inv(),
            r@ == Seq::<FrameV>::empty(),
    {
        let r = Log { frames: Vec::new() };
        proof {
            assert(r@ =~= Seq::<FrameV>::empty());
        }
        r
    }

    /// How many frames the log holds; also the id of the newest frame.
    pub fn len(&self) -> (n: usize)
        ensures
            n == self@.len(),
    {
        self.frames.len()
    }

    /// Appends one frame: assigns the next id — one more than the current
    /// length — and returns a copy of the committed frame.
    pub fn append(&mut self, topic: Vec<u8>, hash: Option<Digest>, context: Option<u64>) -> (f:
        Frame)
        requires
            old(self).inv(),
            old(self)@.len() < u64::MAX,
        ensures
            final(self).inv(),
            f@ == (FrameV {
                id: (old(self)@.len() + 1) as u64,
                topic: topic@,
                hash: opt_digest_view(hash),
                context,
            }),
            final(self)@ == old(self)@.push(f@),
    {
        let id = (self.frames.len() as u64) + 1;
        let frame = Frame { id, topic, hash, context };
        let out = frame.dup();
        self.frames.push(frame);
        proof {
            assert(self@ =~= old(self)@.push(out@));
        }
        out
    }

    /// A copy of the frame at a log index.
    pub fn get(&self, i: usize) -> (f: Frame)
        requires
            i < self@.len(),
        ensures
            f@ == self@[i as int],
    {
        self.frames[i].dup()
    }

    /// The first log index of a frame with id at least `from_id`.
    pub open spec fn lo_idx(len: int, from_id: u64) -> int {
        let l: int = if from_id == 0 {
            0
        } else {
            from_id - 1
        };
        if l > len {
            len
        } else {
            l
        }
    }

    /// One past the last log index of a frame with id at most `to_id`.
    pub open spec fn hi_idx(len: int, to_id: Option<u64>) -> int {
        match to_id {
            Some(t) => if t > len {
                len
            } else {
                t as int
            },
            None => len,
        }
    }

    /// The finite, restartable historical read: copies of all frames with
    /// `from_id <= id`, and `id <= to_id` where a bound is given, in
    /// ascending id order.
    pub fn iterate(&self, from_id: u64, to_id: Option<u64>) -> (r: Vec<Frame>)
        requires
            self.inv(),
        ensures
            ({
                let lo = Log::lo_idx(self@.len() as int, from_id);
                let hi = Log::hi_idx(self@.len() as int, to_id);
                &&& (hi >= lo ==> frames_view(r@) == self@.subrange(lo, hi))
                &&& (hi < lo ==> r@.len() == 0)
            }),
    {
        let len = self.frames.len();
        let lo: usize = if from_id == 0 {
            0
        } else if from_id - 1 > len as u64 {
            len
        } else {
            (from_id - 1) as usize
        };
        let hi: usize = match to_id {
            Some(t) => if t > len as u64 {
                len
            } else {
                t as usize
            },
            None => len,
        };
        let mut r: Vec<Frame> = Vec::new();
        if hi <= lo {
            proof {
                assert(frames_view(r@) =~= Seq::<FrameV>::empty());
                if Log::hi_idx(self@.len() as int, to_id) >= Log::lo_idx(
                    self@.len() as int,
                    from_id,
                ) {
                    assert(frames_view(r@) =~= self@.subrange(
                        Log::lo_idx(self@.len() as int, from_id),
                        Log::hi_idx(self@.len() as int, to_id),
                    ));
                }
            }
            return r;
        }
        let mut i: usize = lo;
        while i < hi
            invariant
                lo <= i <= hi <= self.frames@.len(),
                self.inv(),
                frames_view(r@) == self@.subrange(lo as int, i as int),
            decreases hi - i,
        {
            let f = self.frames[i].dup();
            let ghost prev = r@;
            r.push(f);
            proof {
                assert(r@ == prev.push(f));
                assert(frames_view(r@).len() == r@.len());
                assert(frames_view(prev).len() == prev.len());
                assert(self@.len() == self.frames@.len());
                assert(prev.len() == i - lo);
                assert forall|j: int| 0 <= j < r@.len() implies frames_view(r@)[j] == self
                    @.subrange(lo as int, (i + 1) as int)[j] by {
                    if j < prev.len() {
                        assert(r@[j] == prev[j]);
                        assert(frames_view(prev)[j] == self@.subrange(lo as int, i as int)[j]);
                    } else {
                        assert(r@[j] == f);
                    }
                }
                assert(frames_view(r@) =~= self@.subrange(lo as int, (i + 1) as int));
            }
            i = i + 1;
        }
        r
    }
}

/// The ids of the frames in the log are exactly 1 through its length: each
/// id used once, strictly increasing in append order, with no gap.
pub proof fn lemma_ids_gap_free(log: Seq<FrameV>)
    requires
        log_wf(log),
    ensures
        forall|i: int| 0 <= i < log.len() ==> (#[trigger] log[i]).id == i + 1,
        forall|i: int, j: int| 0 <= i < j < log.len() ==> log[i].id < log[j].id,
        forall|k: u64| 1 <= k <= log.len() ==> (#[trigger] log[k - 1]).id == k,
{
}

} // verus!
