use vstd::prelude::*;
use vstd::utf8::encode_utf8;

use crate::handshake::{
    decode_frame, decode_handshake, encode_frame, encode_handshake, frame_bytes, frame_outcome,
    handshake_bytes, lemma_frame_round_trip, lemma_handshake_round_trip, parse_handshake,
    valid_model, FrameRead, Handshake, HandshakeModel, ProtocolError, MAX_ADDRESS_LEN,
};
use crate::varint::{lemma_varint_bytes_len, unsigned_bits, varint_of};

verus! {

/// What the inbound bytes read so far hold: `Ok(None)` while the first frame is
/// incomplete, else the handshake it carries and the bytes read past it.
pub open spec fn handshake_outcome(b: Seq<u8>) -> Result<Option<(HandshakeModel, Seq<u8>)>, ProtocolError> {
    match frame_outcome(b) {
        Err(e) => Err(e),
        Ok(None) => Ok(None),
        Ok(Some((s, e))) => match parse_handshake(b.subrange(s, e)) {
            Err(err) => Err(err),
            Ok(m) => Ok(Some((m, b.subrange(e, b.len() as int)))),
        },
    }
}

/// Outcome of looking for the handshake in the inbound bytes.
pub enum HandshakeRead {
    /// The first frame is not whole yet: read more.
    NeedMore,
    /// The first frame is malformed or is no handshake.
    Failed(ProtocolError),
    /// The handshake, and the bytes that arrived after its frame.
    Read { handshake: Handshake, overflow: Vec<u8> },
}

/// Looks for the handshake at the start of the inbound bytes `buf`.
pub fn read_handshake_from(buf: &Vec<u8>) -> (r: HandshakeRead)
    ensures
        r matches HandshakeRead::NeedMore ==> handshake_outcome(buf@) == Ok::<
            Option<(HandshakeModel, Seq<u8>)>,
            ProtocolError,
        >(None),
        r matches HandshakeRead::Failed(e) ==> handshake_outcome(buf@) == Err::<
            Option<(HandshakeModel, Seq<u8>)>,
            ProtocolError,
        >(e),
        r matches HandshakeRead::Read { handshake, overflow } ==> handshake_outcome(buf@) == Ok::<
            Option<(HandshakeModel, Seq<u8>)>,
            ProtocolError,
        >(Some((handshake@, overflow@))),
{
    match decode_frame(buf) {
        Err(e) => HandshakeRead::Failed(e),
        Ok(FrameRead::Incomplete) => HandshakeRead::NeedMore,
        Ok(FrameRead::Complete { payload, overflow }) => match decode_handshake(&payload) {
            Err(e) => HandshakeRead::Failed(e),
            Ok(handshake) => HandshakeRead::Read { handshake, overflow },
        },
    }
}

/// The handshake to forward: the client's, with `target` as the server address.
/// Fails when `target` is longer than an address may be.
pub fn rewrite_for_backend(client: Handshake, target: String) -> (r: Result<Handshake, ProtocolError>)
    ensures
        r is Err <==> encode_utf8(target@).len() > MAX_ADDRESS_LEN,
        r matches Err(e) ==> e == ProtocolError::AddressTooLong,
        r matches Ok(h) ==> h@ == (client@.0, target@, client@.2, client@.3),
{
    if target.as_str().as_bytes().len() > MAX_ADDRESS_LEN {
        return Err(ProtocolError::AddressTooLong);
    }
    Ok(
        Handshake {
            protocol_version: client.protocol_version,
            server_address: target,
            server_port: client.server_port,
            next_state: client.next_state,
        },
    )
}

/// Bytes to send to the backend before passthrough: the framed handshake,
/// then the overflow in its order.
pub fn handshake_output(h: &Handshake, overflow: &Vec<u8>) -> (r: Vec<u8>)
    requires
        encode_utf8(h.server_address@).len() <= MAX_ADDRESS_LEN,
    ensures
        r@ == frame_bytes(handshake_bytes(h@)) + overflow@,
{
    let payload = encode_handshake(h);
    proof {
        lemma_handshake_len(h@);
    }
    let mut out = encode_frame(&payload);
    let mut i: usize = 0;
    let ghost framed = out@;
    while i < overflow.len()
        invariant
            i <= overflow@.len(),
            out@ == framed + overflow@.subrange(0, i as int),
        decreases overflow@.len() - i,
    {
        out.push(overflow[i]);
        i = i + 1;
        assert(out@ =~= framed + overflow@.subrange(0, i as int));
    }
    assert(overflow@.subrange(0, i as int) =~= overflow@);
    out
}

proof fn lemma_varint_of_len(x: int)
    requires
        -0x8000_0000 <= x < 0x8000_0000,
    ensures
        1 <= varint_of(x).len() <= 5,
{
    lemma_varint_bytes_len(unsigned_bits(x), 0);
}

proof fn lemma_handshake_len(m: HandshakeModel)
    requires
        valid_model(m),
    ensures
        handshake_bytes(m).len() <= 273,
{
    lemma_varint_of_len(0);
    lemma_varint_of_len(m.0);
    lemma_varint_of_len(encode_utf8(m.1).len() as int);
    lemma_varint_of_len(crate::handshake::state_tag(m.3));
}

/// What the proxy sends the backend, read back as inbound bytes, is the
/// handshake it forwarded followed by exactly the overflow, in its order.
pub proof fn lemma_overflow_preserved(m: HandshakeModel, overflow: Seq<u8>)
    requires
        valid_model(m),
    ensures
        handshake_outcome(frame_bytes(handshake_bytes(m)) + overflow) == Ok::<
            Option<(HandshakeModel, Seq<u8>)>,
            ProtocolError,
        >(Some((m, overflow))),
{
    let p = handshake_bytes(m);
    lemma_handshake_len(m);
    lemma_varint_of_len(p.len() as int);
    lemma_frame_round_trip(p, overflow);
    lemma_handshake_round_trip(m);
}

} // verus!
