//! Frames and their fixed header layout.
//!
//! A frame on the wire is a routing key of eight octets, a sequence number of
//! four octets in little-endian order, and then the payload, which this crate
//! never looks into.

use vstd::prelude::*;
use vstd::slice::slice_subrange;
use vstd::slice::slice_to_vec;
use vstd::std_specs::cmp::PartialEqSpecImpl;

verus! {

/// Number of octets of a routing key.
pub const KEY_LEN: usize = 8;

/// Number of octets of an encoded header: the key and the sequence number.
pub const HEADER_LEN: usize = 12;

/// An eight-octet routing tag that names an endpoint reply type or a topic.
#[derive(Clone, Copy, Debug, Eq)]
pub struct Key {
    pub bytes: [u8; 8],
}

impl View for Key {
    type V = Seq<u8>;

    open spec fn view(&self) -> Seq<u8> {
        self.bytes@
    }
}

impl PartialEq for Key {
    fn eq(&self, other: &Self) -> (r: bool) {
        let r = self.bytes[0] == other.bytes[0] && self.bytes[1] == other.bytes[1] && self.bytes[2]
            == other.bytes[2] && self.bytes[3] == other.bytes[3] && self.bytes[4] == other.bytes[4]
            && self.bytes[5] == other.bytes[5] && self.bytes[6] == other.bytes[6] && self.bytes[7]
            == other.bytes[7];
        proof {
            if r {
                assert(self.bytes =~= other.bytes);
            }
        }
        r
    }
}

impl PartialEqSpecImpl for Key {
    open spec fn obeys_eq_spec() -> bool {
        true
    }

    open spec fn eq_spec(&self, other: &Self) -> bool {
        *self == *other
    }
}

/// The reply coordinate: a routing key together with a sequence number.
/// A reply belongs to a waiter exactly when the two headers are equal.
#[derive(Clone, Copy, Debug, Eq)]
pub struct WireHeader {
    pub key: Key,
    pub seq_no: u32,
}

impl PartialEq for WireHeader {
    fn eq(&self, other: &Self) -> (r: bool) {
        self.key == other.key && self.seq_no == other.seq_no
    }
}

impl PartialEqSpecImpl for WireHeader {
    open spec fn obeys_eq_spec() -> bool {
        true
    }

    open spec fn eq_spec(&self, other: &Self) -> bool {
        *self == *other
    }
}

/// A header and the payload that travels with it.
#[derive(Debug)]
pub struct RpcFrame {
    /// The wire header
    pub header: WireHeader,
    /// The serialized message payload
    pub body: Vec<u8>,
}

/// The octets handed to `decode_header` were fewer than a header.
#[derive(Clone, Copy, Debug, PartialEq, Eq)]
pub struct MalformedFrame;

/// The four octets of a sequence number, least significant first.
pub open spec fn seq_octets(seq_no: u32) -> Seq<u8> {
    seq![
        (seq_no % 256) as u8,
        ((seq_no / 256) % 256) as u8,
        ((seq_no / 65536) % 256) as u8,
        (seq_no / 16777216) as u8,
    ]
}

/// The number that four little-endian octets stand for.
pub open spec fn seq_value(octets: Seq<u8>) -> int
    recommends
        octets.len() == 4,
{
    octets[0] + 256 * octets[1] + 65536 * octets[2] + 16777216 * octets[3]
}

/// The twelve octets of a header: the key, then the sequence number.
pub open spec fn header_octets(header: WireHeader) -> Seq<u8> {
    header.key@ + seq_octets(header.seq_no)
}

/// The octets of a whole frame: the header, then the payload unchanged.
pub open spec fn frame_octets(header: WireHeader, body: Seq<u8>) -> Seq<u8> {
    header_octets(header) + body
}

/// Reading the octets of a sequence number gives the number back.
pub proof fn lemma_seq_octets_value(seq_no: u32)
    ensures
        seq_octets(seq_no).len() == 4,
        seq_value(seq_octets(seq_no)) == seq_no,
{
}

/// Four octets are the octets of the number they stand for.
pub proof fn lemma_seq_value_octets(octets: Seq<u8>)
    requires
        octets.len() == 4,
    ensures
        0 <= seq_value(octets) <= u32::MAX,
        seq_octets(seq_value(octets) as u32) == octets,
{
    assert(seq_octets(seq_value(octets) as u32) =~= octets);
}

/// Two headers with the same octets are the same header.
pub proof fn lemma_header_octets_injective(a: WireHeader, b: WireHeader)
    requires
        header_octets(a) == header_octets(b),
    ensures
        a == b,
{
    let oa = header_octets(a);
    let ob = header_octets(b);
    assert forall|i: int| 0 <= i < 8 implies a.key.bytes[i] == b.key.bytes[i] by {
        assert(oa[i] == a.key@[i]);
        assert(ob[i] == b.key@[i]);
    }
    assert(a.key.bytes =~= b.key.bytes);
    assert(seq_octets(a.seq_no) =~= oa.subrange(8, 12));
    assert(seq_octets(b.seq_no) =~= ob.subrange(8, 12));
    lemma_seq_octets_value(a.seq_no);
    lemma_seq_octets_value(b.seq_no);
}

/// A frame's octets split in one way only: equal octets mean equal header and
/// equal payload.
pub proof fn lemma_frame_octets_injective(a: WireHeader, x: Seq<u8>, b: WireHeader, y: Seq<u8>)
    requires
        frame_octets(a, x) == frame_octets(b, y),
    ensures
        a == b,
        x == y,
{
    let fa = frame_octets(a, x);
    let fb = frame_octets(b, y);
    assert(header_octets(a) =~= fa.subrange(0, 12));
    assert(header_octets(b) =~= fb.subrange(0, 12));
    lemma_header_octets_injective(a, b);
    assert(x =~= fa.subrange(12, fa.len() as int));
    assert(y =~= fb.subrange(12, fb.len() as int));
}

/// The fixed-layout prefix of a frame: the key's octets followed by the
/// sequence number, least significant octet first.
pub fn encode_header(key: Key, seq_no: u32) -> (out: Vec<u8>)
    ensures
        out@ == header_octets(WireHeader { key, seq_no }),
        out@.len() == HEADER_LEN,
{
    let mut out: Vec<u8> = Vec::with_capacity(HEADER_LEN);
    let mut i: usize = 0;
    while i < KEY_LEN
        invariant
            i <= KEY_LEN,
            out@ == key@.subrange(0, i as int),
        decreases KEY_LEN - i,
    {
        out.push(key.bytes[i]);
        i = i + 1;
        assert(out@ =~= key@.subrange(0, i as int));
    }
    out.push((seq_no % 256) as u8);
    out.push(((seq_no / 256) % 256) as u8);
    out.push(((seq_no / 65536) % 256) as u8);
    out.push((seq_no / 16777216) as u8);
    assert(out@ =~= header_octets(WireHeader { key, seq_no }));
    out
}

/// Splits octets into the header they start with and what follows it.
///
/// Fails exactly when there are fewer octets than a header has. On success
/// the input is the header's octets followed by the remainder, which by
/// `lemma_frame_octets_injective` fixes both.
pub fn decode_header(octets: &[u8]) -> (r: Result<(WireHeader, &[u8]), MalformedFrame>)
    ensures
        octets@.len() < HEADER_LEN <==> r is Err,
        r matches Ok((header, rest)) ==> octets@ == frame_octets(header, rest@),
{
    if octets.len() < HEADER_LEN {
        return Err(MalformedFrame);
    }
    let bytes: [u8; 8] = [
        octets[0],
        octets[1],
        octets[2],
        octets[3],
        octets[4],
        octets[5],
        octets[6],
        octets[7],
    ];
    let seq_no: u32 = octets[8] as u32 + 256 * (octets[9] as u32) + 65536 * (octets[10] as u32)
        + 16777216 * (octets[11] as u32);
    let header = WireHeader { key: Key { bytes }, seq_no };
    let rest = slice_subrange(octets, HEADER_LEN, octets.len());
    proof {
        let tail = octets@.subrange(8, 12);
        assert(seq_value(tail) == seq_no);
        lemma_seq_value_octets(tail);
        assert(octets@ =~= frame_octets(header, rest@));
    }
    Ok((header, rest))
}

impl Key {
    /// The key made of these eight octets.
    pub fn from_bytes(bytes: [u8; 8]) -> (key: Key)
        ensures
            key@ == bytes@,
            key.bytes == bytes,
    {
        Key { bytes }
    }

    /// The key's eight octets, in wire order.
    pub fn to_bytes(&self) -> (bytes: [u8; 8])
        ensures
            bytes@ == self@,
    {
        self.bytes
    }
}

impl RpcFrame {
    /// What the frame is on the wire.
    pub open spec fn octets(&self) -> Seq<u8> {
        frame_octets(self.header, self.body@)
    }

    /// Serialize the `RpcFrame` into a Vec of bytes
    pub fn to_bytes(&self) -> (out: Vec<u8>)
        ensures
            out@ == self.octets(),
            out@.len() == HEADER_LEN + self.body@.len(),
    {
        let mut out = encode_header(self.header.key, self.header.seq_no);
        let mut i: usize = 0;
        while i < self.body.len()
            invariant
                i <= self.body@.len(),
                out@ == header_octets(self.header) + self.body@.subrange(0, i as int),
            decreases self.body@.len() - i,
        {
            out.push(self.body[i]);
            i = i + 1;
            assert(out@ =~= header_octets(self.header) + self.body@.subrange(0, i as int));
        }
        assert(self.body@.subrange(0, i as int) =~= self.body@);
        out
    }

    /// Reads one frame from octets that hold exactly one.
    ///
    /// Fails exactly when the octets are fewer than a header; otherwise the
    /// frame's own octets are the input.
    pub fn from_bytes(octets: &[u8]) -> (r: Result<RpcFrame, MalformedFrame>)
        ensures
            octets@.len() < HEADER_LEN <==> r is Err,
            r matches Ok(frame) ==> frame.octets() == octets@,
    {
        match decode_header(octets) {
            Ok((header, rest)) => Ok(RpcFrame { header, body: slice_to_vec(rest) }),
            Err(e) => Err(e),
        }
    }
}

/// Encoding a frame and reading it back gives the same header and payload.
pub proof fn lemma_frame_round_trip(frame: RpcFrame, back: RpcFrame)
    requires
        back.octets() == frame.octets(),
    ensures
        back.header == frame.header,
        back.body@ == frame.body@,
{
    lemma_frame_octets_injective(back.header, back.body@, frame.header, frame.body@);
}

} // verus!
