use vstd::prelude::*;
use crate::cas::{cas_at, cas_has, insert_spec};
use crate::hash::bytes_eq;
use crate::log::{Frame, FrameV};
use crate::store::{dels_view, fan_out, Delivery, Store};
use crate::sub::sub_after_append;

verus! {

/// Whether the bridge forwards a frame to the external process: it must sit
/// on the designated outbound topic and reference a committed blob.
pub open spec fn wants_outbound(cs: Seq<(Seq<u8>, Seq<u8>)>, f: FrameV, topic: Seq<u8>) -> bool {
    &&& f.topic == topic
    &&& match f.hash {
        Some(h) => cas_has(cs, h),
        None => false,
    }
}

impl Store {
    /// The outbound half of the process bridge: for a frame on the
    /// designated outbound topic that references a committed blob, the line
    /// to hand the external process — the blob's bytes with a trailing
    /// newline. A frame on another topic, without a payload, or with an
    /// unknown digest yields nothing.
    pub fn bridge_outbound(&self, frame: &Frame, outbound_topic: &Vec<u8>) -> (r: Option<Vec<u8>>)
        requires
            self.inv(),
        ensures
            r is Some <==> wants_outbound(self.cas@, frame@, outbound_topic@),
            r matches Some(line) ==> line@ == cas_at(self.cas@, frame@.hash.unwrap()).push(10u8),
    {
        if !bytes_eq(&frame.topic, outbound_topic) {
            return None;
        }
        match &frame.hash {
            Some(d) => {
                match self.cas_read(d) {
                    Ok(v) => {
                        let mut line = v;
                        line.push(10);
                        Some(line)
                    },
                    Err(_) => None,
                }
            },
            None => None,
        }
    }

    /// The inbound half of the process bridge: one line the external
    /// process emitted becomes one committed blob and one frame on the
    /// designated inbound topic, the frame's hash linking that blob. The
    /// blob is committed before the frame is appended, so the append cannot
    /// dangle and never fails.
    pub fn bridge_inbound(&mut self, line: &Vec<u8>, inbound_topic: Vec<u8>) -> (r: (
        Frame,
        Vec<Delivery>,
    ))
        requires
            old(self).inv(),
            old(self).frames().len() < u64::MAX,
        ensures
            final(self).inv(),
            final(self).next_token == old(self).next_token,
            ({
                let (cs1, h) = insert_spec(old(self).cas@, line@);
                &&& final(self).cas@ == cs1
                &&& r.0@ == (FrameV {
                    id: (old(self).frames().len() + 1) as u64,
                    topic: inbound_topic@,
                    hash: Some(h),
                    context: None,
                })
                &&& final(self).frames() == old(self).frames().push(r.0@)
                &&& final(self).subs_v().len() == old(self).subs_v().len()
                &&& forall|i: int|
                    0 <= i < old(self).subs_v().len() ==> sub_after_append(
                        #[trigger] old(self).subs_v()[i],
                        final(self).subs_v()[i],
                        r.0@,
                    )
                &&& dels_view(r.1@) == fan_out(old(self).subs_v(), r.0@)
            }),
    {
        let h = self.cas_insert(line);
        match self.append(inbound_topic, Some(h), None) {
            Ok(p) => p,
            Err(_) => unreached(),
        }
    }
}

} // verus!
