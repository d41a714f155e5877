use vstd::prelude::*;
use crate::hash::{digest_of, clone_bytes, Digest};
use crate::Error;

verus! {

/// One stored blob: immutable bytes under their content digest.
pub struct Blob {
    pub hash: Digest,
    pub data: Vec<u8>,
}

impl View for Blob {
    type V = (Seq<u8>, Seq<u8>);

    open spec fn view(&self) -> (Seq<u8>, Seq<u8>) {
        (self.hash@, self.data@)
    }
}

/// The content-addressed store: deduplicated, immutable blobs keyed by digest.
pub struct Cas {
    pub blobs: Vec<Blob>,
}

impl View for Cas {
    type V = Seq<(Seq<u8>, Seq<u8>)>;

    open spec fn view(&self) -> Seq<(Seq<u8>, Seq<u8>)> {
        self.blobs@.map_values(|b: Blob| b@)
    }
}

/// Whether some blob is stored under the digest `h`.
pub open spec fn cas_has(cs: Seq<(Seq<u8>, Seq<u8>)>, h: Seq<u8>) -> bool {
    exists|i: int| 0 <= i < cs.len() && (#[trigger] cs[i]).0 == h
}

/// The bytes stored under the digest `h`; meaningful only where `cas_has` holds.
pub open spec fn cas_at(cs: Seq<(Seq<u8>, Seq<u8>)>, h: Seq<u8>) -> Seq<u8> {
    cs[choose|i: int| 0 <= i < cs.len() && (#[trigger] cs[i]).0 == h].1
}

/// Well-formedness of the store's contents: every blob sits under the digest
/// of its own bytes, and no digest occurs twice.
pub open spec fn cas_wf(cs: Seq<(Seq<u8>, Seq<u8>)>) -> bool {
    &&& forall|i: int, j: int|
        0 <= i < j < cs.len() ==> (#[trigger] cs[i]).0 != (#[trigger] cs[j]).0
    &&& forall|i: int| 0 <= i < cs.len() ==> (#[trigger] cs[i]).0 == digest_of(cs[i].1)
}

/// What inserting bytes does to the store: a no-op where the digest is
/// already present, one new blob otherwise; the digest is returned either way.
pub open spec fn insert_spec(cs: Seq<(Seq<u8>, Seq<u8>)>, data: Seq<u8>) -> (
    Seq<(Seq<u8>, Seq<u8>)>,
    Seq<u8>,
) {
    let h = digest_of(data);
    if cas_has(cs, h) {
        (cs, h)
    } else {
        (cs.push((h, data)), h)
    }
}

/// Whether the store is consistent with the given bytes: either their digest
/// is absent, or it already holds exactly those bytes. Only a digest
/// collision between different contents falsifies this.
pub open spec fn cas_admits(cs: Seq<(Seq<u8>, Seq<u8>)>, data: Seq<u8>) -> bool {
    cas_has(cs, digest_of(data)) ==> cas_at(cs, digest_of(data)) == data
}

/// In a store with pairwise-distinct digests, the blob at index `i` is the
/// one that lookup by its digest finds.
pub proof fn lemma_cas_at_unique(cs: Seq<(Seq<u8>, Seq<u8>)>, i: int)
    requires
        forall|a: int, b: int|
            0 <= a < b < cs.len() ==> (#[trigger] cs[a]).0 != (#[trigger] cs[b]).0,
        0 <= i < cs.len(),
    ensures
        cas_has(cs, cs[i].0),
        cas_at(cs, cs[i].0) == cs[i].1,
{
    let h = cs[i].0;
    assert(cas_has(cs, h));
    let j = choose|j: int| 0 <= j < cs.len() && (#[trigger] cs[j]).0 == h;
    if j < i {
        assert(cs[j].0 != cs[i].0);
    } else if i < j {
        assert(cs[i].0 != cs[j].0);
    }
    assert(j == i);
}

/// CAS round trip: after inserting bytes, reading the returned digest yields
/// exactly those bytes — provided the store held no different content under
/// the same digest beforehand.
pub proof fn lemma_cas_round_trip(cs: Seq<(Seq<u8>, Seq<u8>)>, data: Seq<u8>)
    requires
        forall|a: int, b: int|
            0 <= a < b < cs.len() ==> (#[trigger] cs[a]).0 != (#[trigger] cs[b]).0,
        cas_admits(cs, data),
    ensures
        ({
            let (cs1, h) = insert_spec(cs, data);
            cas_has(cs1, h) && cas_at(cs1, h) == data
        }),
{
    let h = digest_of(data);
    if cas_has(cs, h) {
        assert(cas_at(cs, h) == data);
    } else {
        let cs1 = cs.push((h, data));
        assert(cs1[cs.len() as int].0 == h);
        assert forall|a: int, b: int|
            0 <= a < b < cs1.len() implies (#[trigger] cs1[a]).0 != (#[trigger] cs1[b]).0 by {
            if b < cs.len() {
                assert(cs1[a] == cs[a] && cs1[b] == cs[b]);
            } else {
                assert(cs1[a] == cs[a]);
                assert(!(cs[a].0 == h));
            }
        }
        lemma_cas_at_unique(cs1, cs.len() as int);
    }
}

/// CAS idempotence: inserting the same bytes twice returns the same digest
/// both times, and the second insert leaves the store exactly as it was —
/// one copy of the content is held.
pub proof fn lemma_cas_idempotent(cs: Seq<(Seq<u8>, Seq<u8>)>, data: Seq<u8>)
    ensures
        ({
            let (cs1, h1) = insert_spec(cs, data);
            let (cs2, h2) = insert_spec(cs1, data);
            h1 == h2 && cs2 == cs1
        }),
{
    let h = digest_of(data);
    let (cs1, h1) = insert_spec(cs, data);
    if !cas_has(cs, h) {
        assert(cs1[cs.len() as int].0 == h);
        assert(cas_has(cs1, h));
    }
}

impl Cas {
    /// Structural well-formedness: contents well-formed, digests 32 bytes.
    pub open spec fn inv(&self) -> bool {
        &&& cas_wf(self@)
        &&& forall|i: int| 0 <= i < self.blobs@.len() ==> (#[trigger] self.blobs@[i]).hash.wf()
    }

    /// An empty store.
    pub fn new() -> (r: Cas)
        ensures
            r.inv(),
            r@ == Seq::<(Seq<u8>, Seq<u8>)>::empty(),
    {
        let r = Cas { blobs: Vec::new() };
        proof {
            assert(r@ =~= Seq::<(Seq<u8>, Seq<u8>)>::empty());
        }
        r
    }

    /// How many distinct blobs the store holds.
    pub fn count(&self) -> (n: usize)
        ensures
            n == self@.len(),
    {
        self.blobs.len()
    }

    fn find_idx(&self, h: &Digest) -> (r: Option<usize>)
        ensures
            match r {
                Some(i) => i < self@.len() && self@[i as int].0 == h@,
                None => !cas_has(self@, h@),
            },
    {
        let mut i: usize = 0;
        while i < self.blobs.len()
            invariant
                i <= self.blobs@.len(),
                forall|j: int| 0 <= j < i ==> (#[trigger] self@[j]).0 != h@,
            decreases self.blobs@.len() - i,
        {
            if self.blobs[i].hash.equals(h) {
                return Some(i);
            }
            i = i + 1;
        }
        None
    }

    /// Whether a blob is stored under the digest.
    pub fn has(&self, h: &Digest) -> (r: bool)
        ensures
            r == cas_has(self@, h@),
    {
        match self.find_idx(h) {
            Some(_) => true,
            None => false,
        }
    }

    /// Stores bytes under their digest and returns the digest. Inserting
    /// content whose digest is already present leaves the store unchanged.
    /// Unless a digest collision with different stored content precedes it,
    /// the returned digest reads back as exactly the inserted bytes.
    pub fn insert(&mut self, data: &Vec<u8>) -> (h: Digest)
        requires
            old(self).inv(),
        ensures
            final(self).inv(),
            h.wf(),
            h@ == digest_of(data@),
            (final(self)@, h@) == insert_spec(old(self)@, data@),
            cas_has(final(self)@, h@),
            cas_admits(old(self)@, data@) ==> cas_at(final(self)@, h@) == data@,
    {
        let h = Digest::of_bytes(data);
        proof {
            if cas_admits(old(self)@, data@) {
                lemma_cas_round_trip(old(self)@, data@);
            }
        }
        match self.find_idx(&h) {
            Some(_) => h,
            None => {
                let stored = Digest { bytes: clone_bytes(&h.bytes) };
                self.blobs.push(Blob { hash: stored, data: clone_bytes(data) });
                proof {
                    assert(self@ =~= old(self)@.push((h@, data@)));
                    assert forall|a: int, b: int|
                        0 <= a < b < self@.len() implies (#[trigger] self@[a]).0 != (
                    #[trigger] self@[b]).0 by {
                        if b < old(self)@.len() {
                            assert(self@[a] == old(self)@[a] && self@[b] == old(self)@[b]);
                        } else {
                            assert(self@[a] == old(self)@[a]);
                            assert(!(old(self)@[a].0 == h@));
                        }
                    }
                    assert(cas_has(self@, h@)) by {
                        assert(self@[old(self)@.len() as int].0 == h@);
                    }
                }
                h
            },
        }
    }

    /// Returns a copy of the blob stored under the digest, or NotFound
    /// exactly where no blob sits under it.
    pub fn read(&self, h: &Digest) -> (r: Result<Vec<u8>, Error>)
        requires
            self.inv(),
        ensures
            match r {
                Ok(v) => cas_has(self@, h@) && v@ == cas_at(self@, h@),
                Err(e) => e == Error::NotFound && !cas_has(self@, h@),
            },
    {
        match self.find_idx(h) {
            Some(i) => {
                proof {
                    lemma_cas_at_unique(self@, i as int);
                }
                Ok(clone_bytes(&self.blobs[i].data))
            },
            None => Err(Error::NotFound),
        }
    }

    /// Opens a scoped write handle that streams chunks into a pending blob.
    pub fn open_writer(&self) -> (w: CasWriter)
        ensures
            w@ == Seq::<u8>::empty(),
    {
        CasWriter { buf: Vec::new() }
    }

    /// Finalizes a write handle: publishes the accumulated bytes under their
    /// digest, exactly as `insert` would, and returns the digest. Committing
    /// content already present is a no-op, not an error.
    pub fn commit(&mut self, w: CasWriter) -> (h: Digest)
        requires
            old(self).inv(),
        ensures
            final(self).inv(),
            h.wf(),
            h@ == digest_of(w@),
            (final(self)@, h@) == insert_spec(old(self)@, w@),
            cas_has(final(self)@, h@),
            cas_admits(old(self)@, w@) ==> cas_at(final(self)@, h@) == w@,
    {
        self.insert(&w.buf)
    }
}

/// A scoped write handle: accumulates streamed chunks until commit.
pub struct CasWriter {
    pub buf: Vec<u8>,
}

impl View for CasWriter {
    type V = Seq<u8>;

    open spec fn view(&self) -> Seq<u8> {
        self.buf@
    }
}

impl CasWriter {
    /// Appends one chunk to the pending blob.
    pub fn write(&mut self, chunk: &Vec<u8>)
        ensures
            final(self)@ == old(self)@ + chunk@,
    {
        let mut i: usize = 0;
        while i < chunk.len()
            invariant
                i <= chunk@.len(),
                self.buf@ == old(self).buf@ + chunk@.take(i as int),
            decreases chunk@.len() - i,
        {
            self.buf.push(chunk[i]);
            proof {
                assert(old(self).buf@ + chunk@.take(i as int) + seq![chunk@[i as int]] =~= old(
                    self,
                ).buf@ + chunk@.take(i + 1));
            }
            i = i + 1;
        }
        proof {
            assert(old(self).buf@ + chunk@.take(chunk@.len() as int) =~= old(self).buf@ + chunk@);
        }
    }
}

} // verus!
