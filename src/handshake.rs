use vstd::prelude::*;
use vstd::utf8::{decode_utf8, encode_utf8, valid_utf8};

use crate::varint::{
    lemma_varint_at_of, read_varint, varint_at, varint_cut_short, varint_of, write_varint,
};

verus! {

broadcast use {vstd::utf8::encode_utf8_valid_utf8, vstd::utf8::encode_utf8_decode_utf8};

/// Size of the read buffer: no frame, length prefix included, may exceed it.
pub const MC_BUFFER_CAPACITY: usize = 2097154;

/// Longest server address, in bytes of UTF-8.
pub const MAX_ADDRESS_LEN: usize = 255;

/// Why a frame or a handshake could not be decoded.
#[derive(Debug, Clone, Copy, PartialEq, Eq, Structural)]
pub enum ProtocolError {
    /// A variable-length integer runs past five bytes or past 32 bits.
    BadVarInt,
    /// A declared length is negative.
    NegativeLength,
    /// A frame would not fit in the read buffer.
    FrameTooLarge,
    /// The packet tag is not that of a handshake.
    UnknownPacket,
    /// The server address declares more than 255 bytes.
    AddressTooLong,
    /// The server address is not valid UTF-8.
    InvalidAddress,
    /// The payload ends inside a field.
    Truncated,
    /// The next-state tag is none of the known ones.
    UnknownNextState,
}

/// The session a client asks for.
#[derive(Debug, Clone, Copy, PartialEq, Eq, Structural, PartialOrd, Ord)]
pub enum NextState {
    Handshaking,
    Status,
    Login,
}

pub open spec fn state_tag(s: NextState) -> int {
    match s {
        NextState::Handshaking => 0,
        NextState::Status => 1,
        NextState::Login => 2,
    }
}

pub open spec fn state_of_tag(t: int) -> Option<NextState> {
    if t == 0 {
        Some(NextState::Handshaking)
    } else if t == 1 {
        Some(NextState::Status)
    } else if t == 2 {
        Some(NextState::Login)
    } else {
        None
    }
}

/// The first message of a connection.
#[derive(Debug, Clone)]
pub struct Handshake {
    pub protocol_version: i32,
    pub server_address: String,
    pub server_port: u16,
    pub next_state: NextState,
}

/// A handshake as values: protocol version, address, port, next state.
pub type HandshakeModel = (int, Seq<char>, u16, NextState);

impl View for Handshake {
    type V = HandshakeModel;

    open spec fn view(&self) -> HandshakeModel {
        (self.protocol_version as int, self.server_address@, self.server_port, self.next_state)
    }
}

impl PartialEq for Handshake {
    fn eq(&self, other: &Self) -> (r: bool) {
        self.protocol_version == other.protocol_version && self.server_address == other.server_address
            && self.server_port == other.server_port && self.next_state == other.next_state
    }
}

impl vstd::std_specs::cmp::PartialEqSpecImpl for Handshake {
    open spec fn obeys_eq_spec() -> bool {
        true
    }

    open spec fn eq_spec(&self, other: &Handshake) -> bool {
        self@ == other@
    }
}

/// The packets this proxy reads; the handshake is the only one it knows.
#[derive(Debug, Clone)]
pub enum HandshakeWrapper {
    Handshake(Handshake),
}

/// A handshake model that fits the wire format.
pub open spec fn valid_model(m: HandshakeModel) -> bool {
    &&& -0x8000_0000 <= m.0 < 0x8000_0000
    &&& encode_utf8(m.1).len() <= 255
}

/// Wire form of a handshake packet: packet tag 0, then the fields in order.
pub open spec fn handshake_bytes(m: HandshakeModel) -> Seq<u8> {
    let addr = encode_utf8(m.1);
    varint_of(0) + varint_of(m.0) + varint_of(addr.len() as int) + addr + seq![
        (m.2 / 256) as u8,
        (m.2 % 256) as u8,
    ] + varint_of(state_tag(m.3))
}

/// What a packet payload decodes to: the handshake it holds, or the first
/// field that breaks the format. Bytes after the last field are not read.
pub open spec fn parse_handshake(p: Seq<u8>) -> Result<HandshakeModel, ProtocolError> {
    match varint_at(p, 0) {
        None => Err(ProtocolError::BadVarInt),
        Some((tag, i1)) => if tag != 0 {
            Err(ProtocolError::UnknownPacket)
        } else {
            match varint_at(p, i1) {
                None => Err(ProtocolError::BadVarInt),
                Some((version, i2)) => match varint_at(p, i2) {
                    None => Err(ProtocolError::BadVarInt),
                    Some((n, i3)) => if n < 0 {
                        Err(ProtocolError::NegativeLength)
                    } else if n > 255 {
                        Err(ProtocolError::AddressTooLong)
                    } else if i3 + n > p.len() {
                        Err(ProtocolError::Truncated)
                    } else if !valid_utf8(p.subrange(i3, i3 + n)) {
                        Err(ProtocolError::InvalidAddress)
                    } else if i3 + n + 2 > p.len() {
                        Err(ProtocolError::Truncated)
                    } else {
                        let i4 = i3 + n;
                        let port = (p[i4] as int * 256 + p[i4 + 1] as int) as u16;
                        match varint_at(p, i4 + 2) {
                            None => Err(ProtocolError::BadVarInt),
                            Some((t, _)) => match state_of_tag(t) {
                                None => Err(ProtocolError::UnknownNextState),
                                Some(s) => Ok(
                                    (version, decode_utf8(p.subrange(i3, i3 + n)), port, s),
                                ),
                            },
                        }
                    }
                },
            }
        }
    }
}

/// Wire form of a frame: its length as a variable-length integer, then the payload.
pub open spec fn frame_bytes(p: Seq<u8>) -> Seq<u8> {
    varint_of(p.len() as int) + p
}

/// What the start of a buffer holds: `Ok(None)` while the frame is still
/// incomplete, `Ok(Some((start, end)))` for a whole frame whose payload is
/// `b[start..end]`, or the error that makes it malformed.
pub open spec fn frame_outcome(b: Seq<u8>) -> Result<Option<(int, int)>, ProtocolError> {
    match varint_at(b, 0) {
        None => if varint_cut_short(b, 0) {
            Ok(None)
        } else {
            Err(ProtocolError::BadVarInt)
        },
        Some((n, i)) => if n < 0 {
            Err(ProtocolError::NegativeLength)
        } else if i + n > MC_BUFFER_CAPACITY {
            Err(ProtocolError::FrameTooLarge)
        } else if i + n > b.len() {
            Ok(None)
        } else {
            Ok(Some((i, i + n)))
        },
    }
}

/// Relies on std::str::from_utf8: it accepts exactly the valid UTF-8 byte
/// sequences, and the text it returns is made of those same bytes.
#[verifier::external_body]
fn string_from_utf8(b: &Vec<u8>) -> (r: Option<String>)
    ensures
        r is Some <==> valid_utf8(b@),
        r matches Some(s) ==> encode_utf8(s@) == b@,
{
    match std::str::from_utf8(b.as_slice()) {
        Ok(s) => Some(s.to_string()),
        Err(_) => None,
    }
}

impl NextState {
    /// The tag this state has on the wire.
    pub fn tag(&self) -> (r: i32)
        ensures
            r == state_tag(*self),
    {
        match self {
            NextState::Handshaking => 0,
            NextState::Status => 1,
            NextState::Login => 2,
        }
    }

    /// The state a wire tag stands for, if any.
    pub fn from_tag(t: i32) -> (r: Option<NextState>)
        ensures
            r == state_of_tag(t as int),
    {
        if t == 0 {
            Some(NextState::Handshaking)
        } else if t == 1 {
            Some(NextState::Status)
        } else if t == 2 {
            Some(NextState::Login)
        } else {
            None
        }
    }
}

/// Appends the bytes of `src` to `out`.
fn append_bytes(out: &mut Vec<u8>, src: &[u8])
    ensures
        final(out)@ == old(out)@ + src@,
{
    let mut i: usize = 0;
    while i < src.len()
        invariant
            i <= src@.len(),
            out@ == old(out)@ + src@.subrange(0, i as int),
        decreases src@.len() - i,
    {
        out.push(src[i]);
        i = i + 1;
        assert(out@ =~= old(out)@ + src@.subrange(0, i as int));
    }
    assert(src@.subrange(0, i as int) =~= src@);
}

/// The payload of a handshake packet.
pub fn encode_handshake(h: &Handshake) -> (r: Vec<u8>)
    requires
        encode_utf8(h.server_address@).len() <= MAX_ADDRESS_LEN,
    ensures
        r@ == handshake_bytes(h@),
{
    let mut out: Vec<u8> = Vec::new();
    write_varint(&mut out, 0);
    write_varint(&mut out, h.protocol_version);
    let addr: &[u8] = h.server_address.as_str().as_bytes();
    write_varint(&mut out, addr.len() as i32);
    append_bytes(&mut out, addr);
    out.push((h.server_port / 256) as u8);
    out.push((h.server_port % 256) as u8);
    write_varint(&mut out, h.next_state.tag());
    assert(out@ =~= handshake_bytes(h@));
    out
}

/// Copies `src[start..end]`.
fn copy_range(src: &Vec<u8>, start: usize, end: usize) -> (r: Vec<u8>)
    requires
        start <= end <= src@.len(),
    ensures
        r@ == src@.subrange(start as int, end as int),
{
    let mut out: Vec<u8> = Vec::new();
    let mut i: usize = start;
    while i < end
        invariant
            start <= i <= end,
            end <= src@.len(),
            out@ == src@.subrange(start as int, i as int),
        decreases end - i,
    {
        out.push(src[i]);
        i = i + 1;
        assert(out@ =~= src@.subrange(start as int, i as int));
    }
    out
}

/// Decodes a handshake packet's payload.
pub fn decode_handshake(payload: &Vec<u8>) -> (r: Result<Handshake, ProtocolError>)
    ensures
        r matches Ok(h) ==> parse_handshake(payload@) == Ok::<HandshakeModel, ProtocolError>(h@),
        r matches Err(e) ==> parse_handshake(payload@) == Err::<HandshakeModel, ProtocolError>(e),
{
    let (tag, i1) = match read_varint(payload, 0) {
        Some(x) => x,
        None => return Err(ProtocolError::BadVarInt),
    };
    if tag != 0 {
        return Err(ProtocolError::UnknownPacket);
    }
    let (version, i2) = match read_varint(payload, i1) {
        Some(x) => x,
        None => return Err(ProtocolError::BadVarInt),
    };
    let (n, i3) = match read_varint(payload, i2) {
        Some(x) => x,
        None => return Err(ProtocolError::BadVarInt),
    };
    if n < 0 {
        return Err(ProtocolError::NegativeLength);
    }
    if n > 255 {
        return Err(ProtocolError::AddressTooLong);
    }
    let n: usize = n as usize;
    if n > payload.len() || i3 > payload.len() - n {
        return Err(ProtocolError::Truncated);
    }
    let addr_bytes = copy_range(payload, i3, i3 + n);
    let server_address = match string_from_utf8(&addr_bytes) {
        Some(s) => s,
        None => return Err(ProtocolError::InvalidAddress),
    };
    let i4 = i3 + n;
    if payload.len() - i4 < 2 {
        return Err(ProtocolError::Truncated);
    }
    let server_port: u16 = payload[i4] as u16 * 256 + payload[i4 + 1] as u16;
    let (t, _) = match read_varint(payload, i4 + 2) {
        Some(x) => x,
        None => return Err(ProtocolError::BadVarInt),
    };
    let next_state = match NextState::from_tag(t) {
        Some(s) => s,
        None => return Err(ProtocolError::UnknownNextState),
    };
    let h = Handshake { protocol_version: version, server_address, server_port, next_state };
    proof {
        assert(h.server_address@ == decode_utf8(payload@.subrange(i3 as int, i3 + n)));
    }
    Ok(h)
}

/// Frames `payload`: its length as a variable-length integer, then the payload.
pub fn encode_frame(payload: &Vec<u8>) -> (r: Vec<u8>)
    requires
        payload@.len() < 0x8000_0000,
    ensures
        r@ == frame_bytes(payload@),
{
    let mut out: Vec<u8> = Vec::new();
    write_varint(&mut out, payload.len() as i32);
    append_bytes(&mut out, payload.as_slice());
    out
}

/// What the start of a read buffer holds.
pub enum FrameRead {
    /// More bytes are needed before the frame is whole.
    Incomplete,
    /// A whole frame, and the bytes read past its end.
    Complete { payload: Vec<u8>, overflow: Vec<u8> },
}

/// Splits the first frame off `buf`, keeping the bytes that follow it.
pub fn decode_frame(buf: &Vec<u8>) -> (r: Result<FrameRead, ProtocolError>)
    ensures
        r matches Err(e) ==> frame_outcome(buf@) == Err::<Option<(int, int)>, ProtocolError>(e),
        r matches Ok(FrameRead::Incomplete) ==> frame_outcome(buf@) == Ok::<
            Option<(int, int)>,
            ProtocolError,
        >(None),
        r matches Ok(FrameRead::Complete { payload, overflow }) ==> exists|s: int, e: int|
            frame_outcome(buf@) == Ok::<Option<(int, int)>, ProtocolError>(Some((s, e)))
                && payload@ == buf@.subrange(s, e) && overflow@ == buf@.subrange(
                e,
                buf@.len() as int,
            ),
{
    match read_varint(buf, 0) {
        None => {
            if buf.len() >= 5 {
                return Err(ProtocolError::BadVarInt);
            }
            let mut i: usize = 0;
            while i < buf.len()
                invariant
                    i <= buf@.len(),
                    buf@.len() < 5,
                    varint_at(buf@, 0) is None,
                    forall|j: int| 0 <= j < i ==> buf@[j] >= 128,
                decreases buf@.len() - i,
            {
                if buf[i] < 128 {
                    return Err(ProtocolError::BadVarInt);
                }
                i = i + 1;
            }
            Ok(FrameRead::Incomplete)
        },
        Some((n, i)) => {
            if n < 0 {
                return Err(ProtocolError::NegativeLength);
            }
            let n: usize = n as usize;
            if n > MC_BUFFER_CAPACITY || i > MC_BUFFER_CAPACITY - n {
                return Err(ProtocolError::FrameTooLarge);
            }
            if i + n > buf.len() {
                return Ok(FrameRead::Incomplete);
            }
            let payload = copy_range(buf, i, i + n);
            let overflow = copy_range(buf, i + n, buf.len());
            Ok(FrameRead::Complete { payload, overflow })
        },
    }
}

/// Decoding the wire form of a handshake gives that handshake back, for every
/// protocol version that fits in 32 bits and every address of at most 255 bytes.
pub proof fn lemma_handshake_round_trip(m: HandshakeModel)
    requires
        valid_model(m),
    ensures
        parse_handshake(handshake_bytes(m)) == Ok::<HandshakeModel, ProtocolError>(m),
{
    let addr = encode_utf8(m.1);
    let n = addr.len() as int;
    let t0 = varint_of(0);
    let t1 = varint_of(m.0);
    let t2 = varint_of(n);
    let port = seq![(m.2 / 256) as u8, (m.2 % 256) as u8];
    let t3 = varint_of(state_tag(m.3));
    let b = handshake_bytes(m);
    assert(b =~= t0 + t1 + t2 + addr + port + t3);
    let i1 = t0.len() as int;
    let i2 = i1 + t1.len();
    let i3 = i2 + t2.len();
    let i4 = i3 + n;
    assert(b.subrange(0, i1) =~= t0);
    lemma_varint_at_of(b, 0, 0);
    assert(b.subrange(i1, i2) =~= t1);
    lemma_varint_at_of(b, i1, m.0);
    assert(b.subrange(i2, i3) =~= t2);
    lemma_varint_at_of(b, i2, n);
    assert(b.subrange(i3, i4) =~= addr);
    assert(b[i4] == (m.2 / 256) as u8);
    assert(b[i4 + 1] == (m.2 % 256) as u8);
    assert(b.subrange(i4 + 2, b.len() as int) =~= t3);
    lemma_varint_at_of(b, i4 + 2, state_tag(m.3));
}

/// Reading back a framed payload followed by any further bytes splits off
/// exactly that payload, and keeps the further bytes in their order.
pub proof fn lemma_frame_round_trip(p: Seq<u8>, rest: Seq<u8>)
    requires
        varint_of(p.len() as int).len() + p.len() <= MC_BUFFER_CAPACITY,
    ensures
        ({
            let b = frame_bytes(p) + rest;
            let s = varint_of(p.len() as int).len() as int;
            &&& frame_outcome(b) == Ok::<Option<(int, int)>, ProtocolError>(
                Some((s, s + p.len())),
            )
            &&& b.subrange(s, s + p.len()) == p
            &&& b.subrange(s + p.len(), b.len() as int) == rest
        }),
{
    let b = frame_bytes(p) + rest;
    let pre = varint_of(p.len() as int);
    let s = pre.len() as int;
    assert(b.subrange(0, s) =~= pre);
    lemma_varint_at_of(b, 0, p.len() as int);
    assert(b.subrange(s, s + p.len()) =~= p);
    assert(b.subrange(s + p.len(), b.len() as int) =~= rest);
}

} // verus!
