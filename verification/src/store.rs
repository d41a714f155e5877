use vstd::prelude::*;
use crate::cas::{cas_admits, cas_at, cas_has, insert_spec, Cas, CasWriter};
use crate::hash::{digest_of, Digest};
use crate::log::{opt_digest_view, Frame, FrameV, Log};
use crate::sub::{
    new_sub_v, options_ok, pump_rel, sub_after_append, sub_wf, subs_view, ReadOptions, SubEvent,
    SubPhase, SubV, Subscription,
};
use crate::Error;

verus! {

/// One fan-out instruction: hand this frame to the subscriber behind this token.
#[derive(Debug)]
pub struct Delivery {
    pub token: u64,
    pub frame: Frame,
}

impl View for Delivery {
    type V = (u64, FrameV);

    open spec fn view(&self) -> (u64, FrameV) {
        (self.token, self.frame@)
    }
}

/// The views of a sequence of deliveries, in order.
pub open spec fn dels_view(s: Seq<Delivery>) -> Seq<(u64, FrameV)> {
    Seq::new(s.len(), |i: int| s[i]@)
}

proof fn lemma_dels_push(pre: Seq<Delivery>, post: Seq<Delivery>, dv: (u64, FrameV))
    requires
        post.len() == pre.len() + 1,
        forall|j: int| 0 <= j < pre.len() ==> post[j] == pre[j],
        post[pre.len() as int]@ == dv,
    ensures
        dels_view(post) == dels_view(pre).push(dv),
{
    assert forall|k: int| 0 <= k < post.len() implies dels_view(post)[k] == dels_view(pre).push(
        dv,
    )[k] by {
        if k < pre.len() {
            assert(post[k] == pre[k]);
        }
    }
    assert(dels_view(post) =~= dels_view(pre).push(dv));
}

proof fn lemma_subs_view_update(pre: Seq<Subscription>, post: Seq<Subscription>, i: int)
    requires
        0 <= i < pre.len(),
        post.len() == pre.len(),
        forall|j: int| 0 <= j < pre.len() && j != i ==> post[j] == pre[j],
    ensures
        subs_view(post).len() == subs_view(pre).len(),
        forall|j: int|
            0 <= j < pre.len() && j != i ==> subs_view(post)[j] == subs_view(pre)[j],
        subs_view(post)[i] == post[i]@,
        subs_view(pre)[i] == pre[i]@,
{
}

/// The fan-out an append performs: each live subscriber, in registry order,
/// is handed the new frame; replaying and closed subscribers get nothing
/// here (a replaying one will meet the frame in the log).
pub open spec fn fan_out(subs: Seq<SubV>, f: FrameV) -> Seq<(u64, FrameV)>
    decreases subs.len(),
{
    if subs.len() == 0 {
        Seq::empty()
    } else {
        fan_out(subs.drop_last(), f) + (if subs.last().phase is Live {
            seq![(subs.last().token, f)]
        } else {
            Seq::empty()
        })
    }
}

/// The store: sole owner of the log, the blob store and the subscriber
/// registry. Every mutating operation runs through one `&mut` serialization
/// point, so id assignment, frame persistence and fan-out are consistent.
pub struct Store {
    pub log: Log,
    pub cas: Cas,
    pub subs: Vec<Subscription>,
    pub next_token: u64,
}

impl Store {
    /// The committed frames, in id order.
    pub open spec fn frames(&self) -> Seq<FrameV> {
        self.log@
    }

    /// The registered subscriptions, in registration order.
    pub open spec fn subs_v(&self) -> Seq<SubV> {
        subs_view(self.subs@)
    }

    /// The store's invariant: the log is gap-free, the blob store is
    /// well-formed, every subscription obeys the delivery discipline,
    /// tokens are unique, and every frame's blob reference is committed.
    pub open spec fn inv(&self) -> bool {
        &&& self.log.inv()
        &&& self.cas.inv()
        &&& forall|i: int|
            0 <= i < self.subs_v().len() ==> sub_wf(self.frames(), #[trigger] self.subs_v()[i])
        &&& forall|i: int, j: int|
            0 <= i < j < self.subs_v().len() ==> self.subs_v()[i].token != self.subs_v()[j].token
        &&& forall|i: int|
            0 <= i < self.subs_v().len() ==> (#[trigger] self.subs_v()[i]).token < self.next_token
        &&& forall|i: int|
            0 <= i < self.frames().len() ==> match (#[trigger] self.frames()[i]).hash {
                Some(h) => cas_has(self.cas@, h),
                None => true,
            }
    }

    /// A fresh, empty store.
    pub fn new() -> (r: Store)
        ensures
            r.inv(),
            r.frames() == Seq::<FrameV>::empty(),
            r.cas@ == Seq::<(Seq<u8>, Seq<u8>)>::empty(),
            r.subs_v() == Seq::<SubV>::empty(),
            r.next_token == 1,
    {
        let r = Store { log: Log::new(), cas: Cas::new(), subs: Vec::new(), next_token: 1 };
        proof {
            assert(r.subs_v() =~= Seq::<SubV>::empty());
        }
        r
    }

    /// Appends one frame at the single serialization point: assigns the next
    /// id, persists the frame, and fans it out to every live subscriber. The
    /// returned deliveries are exactly the live fan-out, in registry order.
    /// Fails with NotFound — leaving the store untouched — exactly where a
    /// blob reference is given whose blob is not committed, so no visible
    /// frame ever dangles.
    #[verifier::loop_isolation(false)]
    pub fn append(&mut self, topic: Vec<u8>, hash: Option<Digest>, context: Option<u64>) -> (r:
        Result<(Frame, Vec<Delivery>), Error>)
        requires
            old(self).inv(),
            old(self).frames().len() < u64::MAX,
        ensures
            final(self).inv(),
            final(self).cas@ == old(self).cas@,
            final(self).next_token == old(self).next_token,
            match r {
                Ok(p) => {
                    &&& (match opt_digest_view(hash) {
                        Some(h) => cas_has(old(self).cas@, h),
                        None => true,
                    })
                    &&& p.0@ == (FrameV {
                        id: (old(self).frames().len() + 1) as u64,
                        topic: topic@,
                        hash: opt_digest_view(hash),
                        context,
                    })
                    &&& final(self).frames() == old(self).frames().push(p.0@)
                    &&& final(self).subs_v().len() == old(self).subs_v().len()
                    &&& forall|i: int|
                        0 <= i < old(self).subs_v().len() ==> sub_after_append(
                            #[trigger] old(self).subs_v()[i],
                            final(self).subs_v()[i],
                            p.0@,
                        )
                    &&& dels_view(p.1@) == fan_out(old(self).subs_v(), p.0@)
                },
                Err(e) => {
                    &&& e == Error::NotFound
                    &&& (opt_digest_view(hash) matches Some(h) && !cas_has(old(self).cas@, h))
                    &&& final(self).frames() == old(self).frames()
                    &&& final(self).subs_v() == old(self).subs_v()
                },
            },
    {
        match &hash {
            Some(d) => {
                if !self.cas.has(d) {
                    return Err(Error::NotFound);
                }
            },
            None => {},
        }
        let f = self.log.append(topic, hash, context);
        let ghost fv = f@;
        let ghost sv0 = old(self).subs_v();
        let mut dels: Vec<Delivery> = Vec::new();
        let n = self.subs.len();
        proof {
            assert(sv0.take(0).len() == 0);
            assert(dels_view(dels@) =~= fan_out(sv0.take(0), fv));
        }
        let mut i: usize = 0;
        while i < n
            invariant
                n == self.subs@.len(),
                self.subs@.len() == sv0.len(),
                sv0 == subs_view(old(self).subs@),
                i <= n,
                self.log@ == old(self).log@.push(fv),
                self.log.inv(),
                self.cas.blobs@ == old(self).cas.blobs@,
                self.next_token == old(self).next_token,
                forall|j: int| i <= j < n ==> self.subs@[j] == old(self).subs@[j],
                forall|j: int|
                    0 <= j < i ==> sub_after_append(
                        sv0[j],
                        #[trigger] subs_view(self.subs@)[j],
                        fv,
                    ),
                dels_view(dels@) == fan_out(sv0.take(i as int), fv),
            decreases n - i,
        {
            let ghost d0 = dels_view(dels@);
            let ghost sb = self.subs@;
            let ghost dp = dels@;
            let is_live = match self.subs[i].phase {
                SubPhase::Live => true,
                _ => false,
            };
            if is_live {
                let t = self.subs[i].token;
                let d = Delivery { token: t, frame: f.dup() };
                let ghost dd = d@;
                dels.push(d);
                let ghost dv = self.subs@[i as int].delivered@;
                self.subs[i].delivered = Ghost(dv.push(fv));
                proof {
                    lemma_dels_push(dp, dels@, dd);
                    assert(dd == (sb[i as int]@.token, fv));
                }
            }
            proof {
                let ghost s0 = sv0[i as int];
                assert(s0 == sb[i as int]@);
                assert(sv0.take((i + 1) as int).drop_last() =~= sv0.take(i as int));
                assert(sv0.take((i + 1) as int).last() == sv0[i as int]);
                if is_live {
                    assert(self.subs@.len() == sb.len());
                    assert(forall|j: int| 0 <= j < sb.len() && j != i ==> self.subs@[j] == sb[j]);
                    lemma_subs_view_update(sb, self.subs@, i as int);
                    assert(self.subs@[i as int].token == s0.token);
                    assert(self.subs@[i as int].anchor as int == s0.anchor);
                    assert(self.subs@[i as int].follow == s0.follow);
                    assert(self.subs@[i as int].phase == s0.phase);
                    assert(self.subs@[i as int].delivered@ == s0.delivered.push(fv));
                    assert(sub_after_append(s0, subs_view(self.subs@)[i as int], fv));
                    assert(dels_view(dels@) == d0.push((s0.token, fv)));
                    assert(d0.push((s0.token, fv)) =~= d0 + seq![(s0.token, fv)]);
                    assert(dels_view(dels@) == fan_out(sv0.take((i + 1) as int), fv));
                } else {
                    assert(self.subs@ == sb);
                    assert(subs_view(self.subs@)[i as int] == s0);
                    assert(sub_after_append(s0, subs_view(self.subs@)[i as int], fv));
                    assert(fan_out(sv0.take((i + 1) as int), fv) =~= fan_out(sv0.take(i as int), fv) + Seq::<(u64, FrameV)>::empty());
                    assert(fan_out(sv0.take(i as int), fv) + Seq::<(u64, FrameV)>::empty() =~= fan_out(sv0.take(i as int), fv));
                }
                assert forall|j: int| 0 <= j < i + 1 implies sub_after_append(
                    sv0[j],
                    #[trigger] subs_view(self.subs@)[j],
                    fv,
                ) by {
                    if j < i {
                        assert(subs_view(self.subs@)[j] == subs_view(sb)[j]);
                    }
                }
            }
            i = i + 1;
        }
        proof {
            assert(sv0.take(n as int) =~= sv0);
            let oldlog = old(self).frames();
            assert forall|k: int|
                0 <= k < self.subs_v().len() implies sub_wf(
                self.frames(),
                #[trigger] self.subs_v()[k],
            ) by {
                let s0 = sv0[k];
                let s1 = self.subs_v()[k];
                assert(sub_after_append(s0, s1, fv));
                assert(sub_wf(oldlog, s0));
                match s0.phase {
                    SubPhase::Replaying { cursor } => {
                        assert(self.frames().subrange(s0.anchor, cursor as int) =~= oldlog
                            .subrange(s0.anchor, cursor as int));
                    },
                    SubPhase::Live => {
                        assert(self.frames().subrange(s0.anchor, self.frames().len() as int)
                            =~= oldlog.subrange(s0.anchor, oldlog.len() as int).push(fv));
                    },
                    SubPhase::Closed { done } => {
                        assert(self.frames().subrange(s0.anchor, done as int) =~= oldlog.subrange(
                            s0.anchor,
                            done as int,
                        ));
                    },
                }
            }
            assert forall|k: int| 0 <= k < self.frames().len() implies (match (
            #[trigger] self.frames()[k]).hash {
                Some(h) => cas_has(self.cas@, h),
                None => true,
            }) by {
                if k < oldlog.len() {
                    assert(self.frames()[k] == oldlog[k]);
                } else {
                    assert(self.frames()[k] == fv);
                }
            }
            assert forall|a: int, b: int|
                0 <= a < b < self.subs_v().len() implies self.subs_v()[a].token != self.subs_v()[b].token by {
                assert(sub_after_append(sv0[a], subs_view(self.subs@)[a], fv));
                assert(sub_after_append(sv0[b], subs_view(self.subs@)[b], fv));
            }
            assert forall|a: int|
                0 <= a < self.subs_v().len() implies (#[trigger] self.subs_v()[a]).token < self
                .next_token by {
                assert(sub_after_append(sv0[a], subs_view(self.subs@)[a], fv));
            }
        }
        Ok((f, dels))
    }

    /// Opens a subscription per the read options and returns its token.
    /// Tail subscriptions start live at the log's current end; others start
    /// replaying just past the resume point, or at the beginning. A resume
    /// cursor beyond the newest assigned id is rejected as InvalidInput,
    /// leaving the store untouched.
    pub fn read(&mut self, options: ReadOptions) -> (r: Result<u64, Error>)
        requires
            old(self).inv(),
            old(self).next_token < u64::MAX,
        ensures
            final(self).inv(),
            final(self).frames() == old(self).frames(),
            final(self).cas@ == old(self).cas@,
            match r {
                Ok(token) => {
                    &&& options_ok(options, old(self).frames().len() as int)
                    &&& token == old(self).next_token
                    &&& final(self).next_token == old(self).next_token + 1
                    &&& final(self).subs_v() == old(self).subs_v().push(
                        new_sub_v(options, old(self).frames().len() as int, token),
                    )
                },
                Err(e) => {
                    &&& e == Error::InvalidInput
                    &&& !options_ok(options, old(self).frames().len() as int)
                    &&& final(self).next_token == old(self).next_token
                    &&& final(self).subs_v() == old(self).subs_v()
                },
            },
    {
        let len = self.log.len();
        if !options.tail {
            match options.last_id {
                Some(n) => {
                    if n > len as u64 {
                        return Err(Error::InvalidInput);
                    }
                },
                None => {},
            }
        }
        let token = self.next_token;
        self.next_token = self.next_token + 1;
        let sub = if options.tail {
            Subscription {
                token,
                anchor: len,
                follow: options.follow,
                phase: SubPhase::Live,
                delivered: Ghost(Seq::empty()),
            }
        } else {
            let a: usize = match options.last_id {
                Some(n) => n as usize,
                None => 0,
            };
            Subscription {
                token,
                anchor: a,
                follow: options.follow,
                phase: SubPhase::Replaying { cursor: a },
                delivered: Ghost(Seq::empty()),
            }
        };
        let ghost subv = sub@;
        self.subs.push(sub);
        proof {
            assert(self.subs_v() =~= old(self).subs_v().push(subv));
            assert(subv == new_sub_v(options, old(self).frames().len() as int, token));
            assert(Seq::<FrameV>::empty() =~= self.frames().subrange(subv.anchor, subv.anchor));
            assert forall|k: int|
                0 <= k < self.subs_v().len() implies sub_wf(
                self.frames(),
                #[trigger] self.subs_v()[k],
            ) by {
                if k < old(self).subs_v().len() {
                    assert(self.subs_v()[k] == old(self).subs_v()[k]);
                    assert(sub_wf(self.frames(), old(self).subs_v()[k]));
                } else {
                    assert(self.subs_v()[k] == subv);
                }
            }
        }
        Ok(token)
    }

    /// "Everything from now on": a live, following subscription anchored at
    /// the log's current end — shorthand for a tail read that follows.
    pub fn subscribe(&mut self) -> (token: u64)
        requires
            old(self).inv(),
            old(self).next_token < u64::MAX,
        ensures
            final(self).inv(),
            final(self).frames() == old(self).frames(),
            final(self).cas@ == old(self).cas@,
            token == old(self).next_token,
            final(self).next_token == old(self).next_token + 1,
            final(self).subs_v() == old(self).subs_v().push(
                new_sub_v(
                    (ReadOptions { follow: true, tail: true, last_id: None }),
                    old(self).frames().len() as int,
                    token,
                ),
            ),
    {
        match self.read(ReadOptions { follow: true, tail: true, last_id: None }) {
            Ok(t) => t,
            Err(_) => unreached(),
        }
    }

    /// Advances one subscription by one step: hands out the next historical
    /// frame, or switches it from replaying to live at this same
    /// serialization point once its cursor reaches the log's end, or closes
    /// a bounded read that has caught up.
    #[verifier::loop_isolation(false)]
    pub fn pump(&mut self, token: u64) -> (ev: SubEvent)
        requires
            old(self).inv(),
        ensures
            final(self).inv(),
            final(self).frames() == old(self).frames(),
            final(self).cas@ == old(self).cas@,
            final(self).next_token == old(self).next_token,
            final(self).subs_v().len() == old(self).subs_v().len(),
            (forall|i: int|
                0 <= i < old(self).subs_v().len() ==> (#[trigger] old(self).subs_v()[i]).token
                    != token) ==> (ev is Unknown && final(self).subs_v() == old(self).subs_v()),
            forall|i: int|
                0 <= i < old(self).subs_v().len() && (#[trigger] old(self).subs_v()[i]).token
                    == token ==> pump_rel(
                    old(self).frames(),
                    old(self).subs_v()[i],
                    final(self).subs_v()[i],
                    ev,
                ),
            forall|i: int|
                0 <= i < old(self).subs_v().len() && (#[trigger] old(self).subs_v()[i]).token
                    != token ==> final(self).subs_v()[i] == old(self).subs_v()[i],
    {
        let n = self.subs.len();
        let mut i: usize = 0;
        while i < n
            invariant
                n == self.subs@.len(),
                i <= n,
                self.subs@ == old(self).subs@,
                self.log.frames@ == old(self).log.frames@,
                self.cas.blobs@ == old(self).cas.blobs@,
                self.next_token == old(self).next_token,
                forall|j: int| 0 <= j < i ==> (#[trigger] self.subs@[j]@).token != token,
            decreases n - i,
        {
            if self.subs[i].token == token {
                let ghost s0 = self.subs@[i as int]@;
                proof {
                    assert(old(self).subs_v()[i as int] == s0);
                    assert(sub_wf(old(self).frames(), s0));
                    old(self).only_index_with_token(i as int, token);
                }
                let follow = self.subs[i].follow;
                let phase = self.subs[i].phase;
                let loglen = self.log.len();
                match phase {
                    SubPhase::Replaying { cursor } => {
                        if cursor < loglen {
                            let fr = self.log.get(cursor);
                            let ghost dv = self.subs@[i as int].delivered@;
                            self.subs[i].phase = SubPhase::Replaying { cursor: cursor + 1 };
                            self.subs[i].delivered = Ghost(dv.push(fr@));
                            proof {
                                lemma_subs_view_update(old(self).subs@, self.subs@, i as int);
                                let s1 = self.subs_v()[i as int];
                                assert(s1.delivered == self.frames().subrange(
                                    s1.anchor,
                                    (cursor + 1) as int,
                                )) by {
                                    assert(self.frames().subrange(s1.anchor, (cursor + 1) as int)
                                        =~= self.frames().subrange(s1.anchor, cursor as int).push(
                                        self.frames()[cursor as int],
                                    ));
                                }
                                assert(sub_wf(self.frames(), s1));
                                self.restore_inv_after_sub_change(*old(self), i as int);
                                assert(pump_rel(
                                    old(self).frames(),
                                    s0,
                                    s1,
                                    SubEvent::Deliver(fr),
                                ));
                            }
                            return SubEvent::Deliver(fr);
                        } else if follow {
                            self.subs[i].phase = SubPhase::Live;
                            proof {
                                lemma_subs_view_update(old(self).subs@, self.subs@, i as int);
                                let s1 = self.subs_v()[i as int];
                                assert(sub_wf(self.frames(), s1));
                                self.restore_inv_after_sub_change(*old(self), i as int);
                                assert(pump_rel(old(self).frames(), s0, s1, SubEvent::Live));
                            }
                            return SubEvent::Live;
                        } else {
                            self.subs[i].phase = SubPhase::Closed { done: cursor };
                            proof {
                                lemma_subs_view_update(old(self).subs@, self.subs@, i as int);
                                let s1 = self.subs_v()[i as int];
                                assert(sub_wf(self.frames(), s1));
                                self.restore_inv_after_sub_change(*old(self), i as int);
                                assert(pump_rel(old(self).frames(), s0, s1, SubEvent::Closed));
                            }
                            return SubEvent::Closed;
                        }
                    },
                    SubPhase::Live => {
                        if follow {
                            proof {
                                assert(pump_rel(
                                    old(self).frames(),
                                    s0,
                                    self.subs_v()[i as int],
                                    SubEvent::Idle,
                                ));
                            }
                            return SubEvent::Idle;
                        } else {
                            self.subs[i].phase = SubPhase::Closed { done: loglen };
                            proof {
                                lemma_subs_view_update(old(self).subs@, self.subs@, i as int);
                                let s1 = self.subs_v()[i as int];
                                assert(sub_wf(self.frames(), s1));
                                self.restore_inv_after_sub_change(*old(self), i as int);
                                assert(pump_rel(old(self).frames(), s0, s1, SubEvent::Closed));
                            }
                            return SubEvent::Closed;
                        }
                    },
                    SubPhase::Closed { done: _ } => {
                        proof {
                            assert(pump_rel(
                                old(self).frames(),
                                s0,
                                self.subs_v()[i as int],
                                SubEvent::Closed,
                            ));
                        }
                        return SubEvent::Closed;
                    },
                }
            }
            i = i + 1;
        }
        SubEvent::Unknown
    }

    /// With tokens unique, the subscription found at `i` is the only one
    /// carrying its token.
    proof fn only_index_with_token(&self, i: int, token: u64)
        requires
            self.inv(),
            0 <= i < self.subs_v().len(),
            self.subs_v()[i].token == token,
        ensures
            forall|j: int|
                0 <= j < self.subs_v().len() && (#[trigger] self.subs_v()[j]).token == token
                    ==> j == i,
    {
        assert forall|j: int|
            0 <= j < self.subs_v().len() && (#[trigger] self.subs_v()[j]).token == token implies j
            == i by {
            if j < i {
                assert(self.subs_v()[j].token != self.subs_v()[i].token);
            } else if j > i {
                assert(self.subs_v()[i].token != self.subs_v()[j].token);
            }
        }
    }

    /// Re-establishes the store invariant when exactly one subscription has
    /// changed, its replacement obeys the delivery discipline, and its token
    /// is unchanged.
    proof fn restore_inv_after_sub_change(&self, pre: Store, i: int)
        requires
            pre.inv(),
            self.log.frames@ == pre.log.frames@,
            self.cas.blobs@ == pre.cas.blobs@,
            self.next_token == pre.next_token,
            self.subs@.len() == pre.subs@.len(),
            0 <= i < pre.subs@.len(),
            forall|j: int| 0 <= j < pre.subs@.len() && j != i ==> self.subs@[j] == pre.subs@[j],
            sub_wf(self.frames(), self.subs_v()[i]),
            self.subs_v()[i].token == pre.subs_v()[i].token,
        ensures
            self.inv(),
            self.subs_v().len() == pre.subs_v().len(),
            forall|j: int|
                0 <= j < pre.subs_v().len() && j != i ==> self.subs_v()[j] == pre.subs_v()[j],
    {
        lemma_subs_view_update(pre.subs@, self.subs@, i);
        assert forall|k: int|
            0 <= k < self.subs_v().len() implies sub_wf(
            self.frames(),
            #[trigger] self.subs_v()[k],
        ) by {
            if k != i {
                assert(self.subs_v()[k] == pre.subs_v()[k]);
                assert(sub_wf(pre.frames(), pre.subs_v()[k]));
            }
        }
        assert forall|a: int, b: int|
            0 <= a < b < self.subs_v().len() implies self.subs_v()[a].token != self.subs_v()[b].token by {
            assert(self.subs_v()[a].token == pre.subs_v()[a].token);
            assert(self.subs_v()[b].token == pre.subs_v()[b].token);
        }
        assert forall|a: int|
            0 <= a < self.subs_v().len() implies (#[trigger] self.subs_v()[a]).token < self
            .next_token by {
            assert(self.subs_v()[a].token == pre.subs_v()[a].token);
        }
    }

    /// Deregisters the subscription behind a token — the receiver is gone —
    /// releasing its state; an unknown token changes nothing.
    #[verifier::loop_isolation(false)]
    pub fn unsubscribe(&mut self, token: u64)
        requires
            old(self).inv(),
        ensures
            final(self).inv(),
            final(self).frames() == old(self).frames(),
            final(self).cas@ == old(self).cas@,
            final(self).next_token == old(self).next_token,
            (forall|i: int|
                0 <= i < old(self).subs_v().len() ==> (#[trigger] old(self).subs_v()[i]).token
                    != token) ==> final(self).subs_v() == old(self).subs_v(),
            forall|i: int|
                0 <= i < old(self).subs_v().len() && (#[trigger] old(self).subs_v()[i]).token
                    == token ==> final(self).subs_v() == old(self).subs_v().remove(i),
    {
        let n = self.subs.len();
        let mut i: usize = 0;
        while i < n
            invariant
                n == self.subs@.len(),
                i <= n,
                self.subs@ == old(self).subs@,
                self.log.frames@ == old(self).log.frames@,
                self.cas.blobs@ == old(self).cas.blobs@,
                self.next_token == old(self).next_token,
                forall|j: int| 0 <= j < i ==> (#[trigger] self.subs@[j]@).token != token,
            decreases n - i,
        {
            if self.subs[i].token == token {
                proof {
                    old(self).only_index_with_token(i as int, token);
                }
                self.subs.remove(i);
                proof {
                    let pre = old(self).subs_v();
                    assert(self.subs@ == old(self).subs@.remove(i as int));
                    assert forall|k: int|
                        0 <= k < self.subs_v().len() implies self.subs_v()[k] == pre.remove(
                        i as int,
                    )[k] by {
                        if k < i {
                            assert(self.subs@[k] == old(self).subs@[k]);
                        } else {
                            assert(self.subs@[k] == old(self).subs@[k + 1]);
                        }
                    }
                    assert(self.subs_v() =~= pre.remove(i as int));
                    assert forall|k: int|
                        0 <= k < self.subs_v().len() implies sub_wf(
                        self.frames(),
                        #[trigger] self.subs_v()[k],
                    ) by {
                        if k < i {
                            assert(self.subs_v()[k] == pre[k]);
                        } else {
                            assert(self.subs_v()[k] == pre[k + 1]);
                        }
                    }
                    assert forall|a: int, b: int|
                        0 <= a < b < self.subs_v().len() implies self.subs_v()[a].token != self
                        .subs_v()[b].token by {
                        let a0: int = if a < i {
                            a
                        } else {
                            a + 1
                        };
                        let b0: int = if b < i {
                            b
                        } else {
                            b + 1
                        };
                        assert(self.subs_v()[a] == pre[a0]);
                        assert(self.subs_v()[b] == pre[b0]);
                        assert(pre[a0].token != pre[b0].token);
                    }
                    assert forall|a: int|
                        0 <= a < self.subs_v().len() implies (#[trigger] self.subs_v()[a]).token
                            < self.next_token by {
                        let a0: int = if a < i {
                            a
                        } else {
                            a + 1
                        };
                        assert(self.subs_v()[a] == pre[a0]);
                    }
                }
                return;
            }
            i = i + 1;
        }
    }

    /// Pass-through to the blob store: stores bytes under their digest,
    /// exactly as the CAS itself would, touching nothing else.
    pub fn cas_insert(&mut self, data: &Vec<u8>) -> (h: Digest)
        requires
            old(self).inv(),
        ensures
            final(self).inv(),
            h.wf(),
            h@ == digest_of(data@),
            (final(self).cas@, h@) == insert_spec(old(self).cas@, data@),
            cas_has(final(self).cas@, h@),
            cas_admits(old(self).cas@, data@) ==> cas_at(final(self).cas@, h@) == data@,
            final(self).frames() == old(self).frames(),
            final(self).subs_v() == old(self).subs_v(),
            final(self).next_token == old(self).next_token,
    {
        let h = self.cas.insert(data);
        proof {
            self.cas_grew_asserts(*old(self));
        }
        h
    }

    /// With the blob store only ever growing, every committed blob reference
    /// in the log stays committed.
    proof fn cas_grew_asserts(&self, pre: Store)
        requires
            self.frames() == pre.frames(),
            forall|k: int| 0 <= k < pre.cas@.len() ==> self.cas@[k] == pre.cas@[k],
            self.cas@.len() >= pre.cas@.len(),
            forall|i: int|
                0 <= i < pre.frames().len() ==> match (#[trigger] pre.frames()[i]).hash {
                    Some(h) => cas_has(pre.cas@, h),
                    None => true,
                },
        ensures
            forall|i: int|
                0 <= i < self.frames().len() ==> match (#[trigger] self.frames()[i]).hash {
                    Some(h) => cas_has(self.cas@, h),
                    None => true,
                },
    {
        assert forall|i: int|
            0 <= i < self.frames().len() implies (match (#[trigger] self.frames()[i]).hash {
            Some(h) => cas_has(self.cas@, h),
            None => true,
        }) by {
            match self.frames()[i].hash {
                Some(h) => {
                    assert(cas_has(pre.cas@, h));
                    let w = choose|w: int|
                        0 <= w < pre.cas@.len() && (#[trigger] pre.cas@[w]).0 == h;
                    assert(self.cas@[w].0 == h);
                },
                None => {},
            }
        }
    }

    /// Pass-through to the blob store: a copy of the blob under the digest,
    /// or NotFound exactly where no blob sits under it.
    pub fn cas_read(&self, h: &Digest) -> (r: Result<Vec<u8>, Error>)
        requires
            self.inv(),
        ensures
            match r {
                Ok(v) => cas_has(self.cas@, h@) && v@ == cas_at(self.cas@, h@),
                Err(e) => e == Error::NotFound && !cas_has(self.cas@, h@),
            },
    {
        self.cas.read(h)
    }

    /// Pass-through to the blob store: opens a scoped, streaming write handle.
    pub fn cas_open(&self) -> (w: CasWriter)
        ensures
            w@ == Seq::<u8>::empty(),
    {
        self.cas.open_writer()
    }

    /// Pass-through to the blob store: publishes a write handle's
    /// accumulated bytes under their digest, as `cas_insert` would.
    pub fn cas_commit(&mut self, w: CasWriter) -> (h: Digest)
        requires
            old(self).inv(),
        ensures
            final(self).inv(),
            h.wf(),
            h@ == digest_of(w@),
            (final(self).cas@, h@) == insert_spec(old(self).cas@, w@),
            cas_has(final(self).cas@, h@),
            cas_admits(old(self).cas@, w@) ==> cas_at(final(self).cas@, h@) == w@,
            final(self).frames() == old(self).frames(),
            final(self).subs_v() == old(self).subs_v(),
            final(self).next_token == old(self).next_token,
    {
        let h = self.cas.commit(w);
        proof {
            self.cas_grew_asserts(*old(self));
        }
        h
    }
}

/// In any reachable store, frame ids are exactly 1 through the log's
/// length: each id assigned once at the single serialization point, in an
/// order consistent with append completion order, with no gap.
pub proof fn lemma_store_ids_gap_free(st: Store)
    requires
        st.inv(),
    ensures
        forall|i: int| 0 <= i < st.frames().len() ==> (#[trigger] st.frames()[i]).id == i + 1,
        forall|i: int, j: int|
            0 <= i < j < st.frames().len() ==> st.frames()[i].id < st.frames()[j].id,
        forall|k: u64| 1 <= k <= st.frames().len() ==> (#[trigger] st.frames()[k - 1]).id == k,
{
    crate::log::lemma_ids_gap_free(st.frames());
}

/// In any reachable store, every subscriber observes its window of the log
/// exactly: the ids it has been handed climb contiguously from one past its
/// anchor — strictly increasing, no gap, no duplicate, each id at most once
/// even across the replay-to-live handoff — and a live subscriber has been
/// handed every frame beyond its anchor that exists. A subscriber whose
/// anchor is the log length at subscription time — every tail subscriber —
/// is therefore never handed a frame appended before it subscribed.
pub proof fn lemma_store_delivery_discipline(st: Store, k: int)
    requires
        st.inv(),
        0 <= k < st.subs_v().len(),
    ensures
        ({
            let s = st.subs_v()[k];
            &&& forall|j: int|
                0 <= j < s.delivered.len() ==> (#[trigger] s.delivered[j]).id == s.anchor + j + 1
            &&& forall|j: int, l: int|
                0 <= j < s.delivered.len() && 0 <= l < s.delivered.len() && j != l
                    ==> s.delivered[j].id != s.delivered[l].id
            &&& forall|j: int| 0 <= j < s.delivered.len() ==> (#[trigger] s.delivered[j]).id > s.anchor
            &&& (s.phase is Live ==> s.delivered.len() == st.frames().len() - s.anchor)
            &&& (s.phase is Live ==> forall|j: int|
                s.anchor <= j < st.frames().len() ==> s.delivered[j - s.anchor] == st.frames()[j])
        }),
{
    crate::sub::lemma_delivery_discipline(st.frames(), st.subs_v()[k]);
}

} // verus!
