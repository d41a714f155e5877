use vstd::prelude::*;


verus! {

/// The content digest function that keys the blob store: an uninterpreted
/// name for what SHA-256 returns on a byte sequence.
pub uninterp spec fn digest_of(data: Seq<u8>) -> Seq<u8>;

/// Relies on sha2::Sha256 through digest::Digest::digest: the digest is a
/// pure function of the input bytes alone, and is always 32 bytes long.
#[verifier::external_body]
fn sha256(data: &Vec<u8>) -> (r: Vec<u8>)
    ensures
        r@ == digest_of(data@),
        r@.len() == 32,
{
    <sha2::Sha256 as sha2::Digest>::digest(data.as_slice()).to_vec()
}

/// Copies a byte vector; the copy holds exactly the same bytes.
pub fn clone_bytes(v: &Vec<u8>) -> (r: Vec<u8>)
    ensures
        r@ == v@,
{
    let mut r: Vec<u8> = Vec::new();
    let mut i: usize = 0;
    while i < v.len()
        invariant
            i <= v@.len(),
            r@ == v@.take(i as int),
        decreases v@.len() - i,
    {
        r.push(v[i]);
        i = i + 1;
    }
    proof {
        assert(v@.take(v@.len() as int) =~= v@);
    }
    r
}

/// Compares two byte vectors for equality of contents.
pub fn bytes_eq(a: &Vec<u8>, b: &Vec<u8>) -> (r: bool)
    ensures
        r == (a@ == b@),
{
    if a.len() != b.len() {
        return false;
    }
    let mut i: usize = 0;
    while i < a.len()
        invariant
            i <= a@.len(),
            a@.len() == b@.len(),
            forall|j: int| 0 <= j < i ==> a@[j] == b@[j],
        decreases a@.len() - i,
    {
        if a[i] != b[i] {
            return false;
        }
        i = i + 1;
    }
    proof {
        assert(a@ =~= b@);
    }
    true
}

/// The lower-case hex digit for a value below sixteen.
pub open spec fn hex_digit_spec(n: u8) -> u8 {
    if n < 10 {
        (48 + n) as u8
    } else {
        (87 + n) as u8
    }
}

/// The two-digit-per-byte lower-case hex rendering of a byte sequence.
pub open spec fn hex_of(data: Seq<u8>) -> Seq<u8> {
    Seq::new(
        data.len() * 2,
        |i: int|
            if i % 2 == 0 {
                hex_digit_spec(data[i / 2] / 16)
            } else {
                hex_digit_spec(data[i / 2] % 16)
            },
    )
}

fn hex_digit(n: u8) -> (r: u8)
    requires
        n < 16,
    ensures
        r == hex_digit_spec(n),
{
    if n < 10 {
        48 + n
    } else {
        87 + n
    }
}

/// Renders bytes as lower-case hex, two digits per byte.
pub fn hex_encode(data: &Vec<u8>) -> (r: Vec<u8>)
    ensures
        r@ == hex_of(data@),
{
    let mut r: Vec<u8> = Vec::new();
    let mut i: usize = 0;
    while i < data.len()
        invariant
            i <= data@.len(),
            r@ == hex_of(data@).take(2 * i as int),
        decreases data@.len() - i,
    {
        let b = data[i];
        r.push(hex_digit(b / 16));
        r.push(hex_digit(b % 16));
        proof {
            assert(r@ =~= hex_of(data@).take(2 * (i + 1) as int));
        }
        i = i + 1;
    }
    proof {
        assert(hex_of(data@).take(2 * data@.len() as int) =~= hex_of(data@));
    }
    r
}

/// The numeric value of a hex digit, or sixteen where the byte is no hex digit.
pub open spec fn hex_val_spec(c: u8) -> u8 {
    if 48 <= c <= 57 {
        (c - 48) as u8
    } else if 97 <= c <= 102 {
        (c - 87) as u8
    } else {
        16
    }
}

/// Whether every byte of the sequence is a lower-case hex digit.
pub open spec fn is_hex_seq(s: Seq<u8>) -> bool {
    forall|i: int| 0 <= i < s.len() ==> hex_val_spec(#[trigger] s[i]) < 16
}

/// The bytes that an even-length lower-case hex sequence denotes.
pub open spec fn unhex(s: Seq<u8>) -> Seq<u8> {
    Seq::new(s.len() / 2, |i: int| (hex_val_spec(s[2 * i]) * 16 + hex_val_spec(s[2 * i + 1])) as u8)
}

fn hex_val(c: u8) -> (r: u8)
    ensures
        r == hex_val_spec(c),
{
    if 48 <= c && c <= 57 {
        c - 48
    } else if 97 <= c && c <= 102 {
        c - 87
    } else {
        16
    }
}

/// Parses lower-case hex into bytes: succeeds exactly on even-length
/// sequences of lower-case hex digits.
pub fn hex_decode(s: &Vec<u8>) -> (r: Option<Vec<u8>>)
    ensures
        match r {
            Some(v) => s@.len() % 2 == 0 && is_hex_seq(s@) && v@ == unhex(s@),
            None => !(s@.len() % 2 == 0 && is_hex_seq(s@)),
        },
{
    if s.len() % 2 != 0 {
        return None;
    }
    let mut v: Vec<u8> = Vec::new();
    let mut i: usize = 0;
    while i + 1 < s.len() + 1
        invariant
            i % 2 == 0,
            i <= s@.len(),
            s@.len() % 2 == 0,
            forall|j: int| 0 <= j < i ==> hex_val_spec(#[trigger] s@[j]) < 16,
            v@ == unhex(s@).take(i as int / 2),
        decreases s@.len() - i,
    {
        let hi = hex_val(s[i]);
        let lo = hex_val(s[i + 1]);
        if hi >= 16 || lo >= 16 {
            return None;
        }
        v.push(hi * 16 + lo);
        proof {
            assert(v@ =~= unhex(s@).take((i + 2) as int / 2));
        }
        i = i + 2;
    }
    proof {
        assert(unhex(s@).take(s@.len() as int / 2) =~= unhex(s@));
    }
    Some(v)
}

/// A content digest: the fixed-size key a blob is stored under.
#[derive(Debug, PartialEq, Eq)]
pub struct Digest {
    pub bytes: Vec<u8>,
}

impl View for Digest {
    type V = Seq<u8>;

    open spec fn view(&self) -> Seq<u8> {
        self.bytes@
    }
}

impl Clone for Digest {
    fn clone(&self) -> (r: Self)
        ensures
            r@ == self@,
    {
        Digest { bytes: clone_bytes(&self.bytes) }
    }
}

impl Digest {
    /// A well-formed digest holds exactly 32 bytes.
    pub open spec fn wf(&self) -> bool {
        self@.len() == 32
    }

    /// Digests a byte sequence; the key the content will live under.
    pub fn of_bytes(data: &Vec<u8>) -> (r: Digest)
        ensures
            r@ == digest_of(data@),
            r.wf(),
    {
        Digest { bytes: sha256(data) }
    }

    /// Rebuilds a digest from its 32 raw bytes.
    pub fn from_bytes(bytes: Vec<u8>) -> (r: Digest)
        requires
            bytes@.len() == 32,
        ensures
            r@ == bytes@,
            r.wf(),
    {
        Digest { bytes }
    }

    /// Whether two digests hold the same bytes.
    pub fn equals(&self, other: &Digest) -> (r: bool)
        ensures
            r == (self@ == other@),
    {
        bytes_eq(&self.bytes, &other.bytes)
    }

    /// The lower-case hex rendering of the digest.
    pub fn to_hex(&self) -> (r: Vec<u8>)
        ensures
            r@ == hex_of(self@),
    {
        hex_encode(&self.bytes)
    }

    /// Parses a digest from its hex rendering: succeeds exactly on 64
    /// lower-case hex digits.
    pub fn from_hex(s: &Vec<u8>) -> (r: Option<Digest>)
        ensures
            match r {
                Some(h) => s@.len() == 64 && is_hex_seq(s@) && h@ == unhex(s@) && h.wf(),
                None => !(s@.len() == 64 && is_hex_seq(s@)),
            },
    {
        if s.len() != 64 {
            return None;
        }
        match hex_decode(s) {
            Some(v) => Some(Digest { bytes: v }),
            None => None,
        }
    }
}

/// Hex round trip: decoding the hex rendering of any bytes gives the bytes back.
pub proof fn lemma_hex_round_trip(data: Seq<u8>)
    ensures
        hex_of(data).len() % 2 == 0,
        is_hex_seq(hex_of(data)),
        unhex(hex_of(data)) == data,
{
    let h = hex_of(data);
    assert forall|i: int| 0 <= i < h.len() implies hex_val_spec(#[trigger] h[i]) < 16 by {
        if i % 2 == 0 {
            assert(h[i] == hex_digit_spec(data[i / 2] / 16));
        } else {
            assert(h[i] == hex_digit_spec(data[i / 2] % 16));
        }
    }
    assert forall|i: int| 0 <= i < data.len() implies unhex(h)[i] == data[i] by {
        assert(h[2 * i] == hex_digit_spec(data[i] / 16));
        assert(h[2 * i + 1] == hex_digit_spec(data[i] % 16));
        assert(hex_val_spec(hex_digit_spec(data[i] / 16)) == data[i] / 16);
        assert(hex_val_spec(hex_digit_spec(data[i] % 16)) == data[i] % 16);
    }
    assert(unhex(h) =~= data);
}

} // verus!
