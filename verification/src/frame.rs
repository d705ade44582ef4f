//! The packet format shared by the sync board and the unit boards:
//! address, command id, payload, XOR checksum and the end byte `0xF0`.
use vstd::prelude::*;

use crate::utils::{checksum_prefix, subvec, xor_all};

verus! {

/// The byte that ends every packet.
pub const END_BYTE: u8 = 0xF0;

/// What a packet means: its direction, the unit board it is for or from,
/// its command id and its payload.
pub struct PacketView {
    pub out: bool,
    pub wedge_id: u8,
    pub command_id: u8,
    pub data: Seq<u8>,
}

/// Why a byte string is not a packet.
#[derive(Debug, Clone, Copy, PartialEq, Eq, Structural)]
pub enum ParseFailure {
    InvalidSize,
    InvalidChecksum,
    WedgeIdOutOfBounds,
}

/// The text that reports a failure.
pub open spec fn failure_message(f: ParseFailure) -> Seq<char> {
    match f {
        ParseFailure::InvalidSize => "Invalid Size"@,
        ParseFailure::InvalidChecksum => "Invalid Checksum"@,
        ParseFailure::WedgeIdOutOfBounds => "Wedge ID out of bounds"@,
    }
}

/// The text that reports a failure.
pub fn failure_text(f: ParseFailure) -> (t: &'static str)
    ensures
        t@ == failure_message(f),
{
    match f {
        ParseFailure::InvalidSize => "Invalid Size",
        ParseFailure::InvalidChecksum => "Invalid Checksum",
        ParseFailure::WedgeIdOutOfBounds => "Wedge ID out of bounds",
    }
}

/// The address byte: `0xE0 + id` towards a unit board, `0xD0 + id` from one.
pub open spec fn address_byte(out: bool, wedge_id: u8) -> int {
    wedge_id + if out {
        0xE0int
    } else {
        0xD0int
    }
}

/// Address, command id and payload: the bytes that the checksum covers.
pub open spec fn frame_body(p: PacketView) -> Seq<u8> {
    seq![address_byte(p.out, p.wedge_id) as u8, p.command_id] + p.data
}

/// The bytes of a packet on the wire.
pub open spec fn frame_bytes(p: PacketView) -> Seq<u8> {
    frame_body(p).push(xor_all(frame_body(p))).push(END_BYTE)
}

/// Address of a packet sent by a unit board (ids 1 to 6).
pub open spec fn is_board_address(b: u8) -> bool {
    209 <= b < 215
}

/// Address of a packet sent to a unit board (ids 1 to 6).
pub open spec fn is_sync_address(b: u8) -> bool {
    225 <= b < 231
}

/// A checksum is accepted if it is the XOR of the body, or of the body
/// followed by `0x80` (as the unit boards send their touch data).
pub open spec fn checksum_accepted(body: Seq<u8>, c: u8) -> bool {
    xor_all(body) == c || xor_all(body.push(0x80)) == c
}

/// Where the payload ends in a frame of `n` bytes: at the checksum, which
/// is the byte before the last; a frame shorter than four bytes has none.
pub open spec fn payload_end(n: int) -> int {
    if n >= 4 {
        n - 2
    } else {
        2
    }
}

/// The packet that a frame of at least two bytes decodes to: address,
/// command id, the payload up to the checksum, the checksum and a last byte
/// taken for the end byte.
pub open spec fn decoded_frame(d: Seq<u8>) -> Result<PacketView, ParseFailure>
    recommends
        d.len() >= 2,
{
    let n = d.len() as int;
    if !checksum_accepted(d.take(n - 2), d[n - 2]) {
        Err(ParseFailure::InvalidChecksum)
    } else if is_board_address(d[0]) {
        Ok(
            PacketView {
                out: false,
                wedge_id: (d[0] - 208) as u8,
                command_id: d[1],
                data: d.subrange(2, payload_end(n)),
            },
        )
    } else if is_sync_address(d[0]) {
        Ok(
            PacketView {
                out: true,
                wedge_id: (d[0] - 224) as u8,
                command_id: d[1],
                data: d.subrange(2, payload_end(n)),
            },
        )
    } else {
        Err(ParseFailure::WedgeIdOutOfBounds)
    }
}

/// Decodes a frame into direction, wedge id, command id and payload.
pub fn decode_frame(d: &Vec<u8>) -> (r: Result<(bool, u8, u8, Vec<u8>), ParseFailure>)
    requires
        d@.len() >= 2,
    ensures
        match (r, decoded_frame(d@)) {
            (Ok(t), Ok(p)) => t.0 == p.out && t.1 == p.wedge_id && t.2 == p.command_id && t.3@
                == p.data,
            (Err(e), Err(f)) => e == f,
            _ => false,
        },
{
    let n = d.len();
    let c = checksum_prefix(d, n - 2);
    let checksum = d[n - 2];
    if c != checksum {
        let c2 = c ^ 0x80u8;
        proof {
            crate::utils::lemma_xor_all_push(d@.take(n - 2), 0x80u8);
        }
        if c2 != checksum {
            return Err(ParseFailure::InvalidChecksum);
        }
    }
    let first = d[0];
    let (out, wedge_id): (bool, u8) = if 209 <= first && first < 215 {
        (false, first - 208)
    } else if 225 <= first && first < 231 {
        (true, first - 224)
    } else {
        (false, 0)
    };
    if wedge_id == 0 {
        return Err(ParseFailure::WedgeIdOutOfBounds);
    }
    let end: usize = if n >= 4 {
        n - 2
    } else {
        2
    };
    Ok((out, wedge_id, d[1], subvec(d, 2, end)))
}

/// The bytes on the wire of the packet with these fields.
pub fn encode_frame(out: bool, wedge_id: u8, command_id: u8, data: &Vec<u8>) -> (r: Vec<u8>)
    requires
        address_byte(out, wedge_id) < 256,
    ensures
        r@ == frame_bytes(PacketView { out, wedge_id, command_id, data: data@ }),
{
    let dir: u8 = if out {
        0xE0
    } else {
        0xD0
    };
    let mut packet: Vec<u8> = vec![wedge_id + dir, command_id];
    let mut i: usize = 0;
    while i < data.len()
        invariant
            i <= data@.len(),
            packet@ =~= seq![(wedge_id + dir) as u8, command_id] + data@.take(i as int),
        decreases data@.len() - i,
    {
        packet.push(data[i]);
        i = i + 1;
    }
    let ghost body = packet@;
    assert(body =~= frame_body(PacketView { out, wedge_id, command_id, data: data@ }));
    let c = crate::utils::calc_checksum(&packet);
    packet.push(c);
    packet.push(END_BYTE);
    packet
}

/// The bytes of a packet with `n` payload bytes: the address `0xE0 + id`
/// towards a unit board or `0xD0 + id` from one, the command id, the
/// payload, the XOR of all bytes before it, and `0xF0`.
pub proof fn lemma_frame_layout(p: PacketView)
    requires
        1 <= p.wedge_id <= 6,
    ensures
        frame_bytes(p).len() == p.data.len() + 4,
        frame_bytes(p)[0] == if p.out {
            0xE0 + p.wedge_id
        } else {
            0xD0 + p.wedge_id
        },
        frame_bytes(p)[1] == p.command_id,
        frame_bytes(p).subrange(2, 2 + p.data.len() as int) == p.data,
        frame_bytes(p)[2 + p.data.len() as int] == xor_all(
            frame_bytes(p).take(2 + p.data.len() as int),
        ),
        frame_bytes(p)[3 + p.data.len() as int] == 0xF0,
{
    let d = frame_bytes(p);
    let n = p.data.len() as int;
    assert(d.subrange(2, 2 + n) =~= p.data);
    assert(d.take(2 + n) =~= frame_body(p));
}

/// The bytes before the end byte of an encoded packet have the checksum 0.
pub proof fn lemma_frame_checksum(p: PacketView)
    ensures
        xor_all(frame_bytes(p).drop_last()) == 0,
{
    assert(frame_bytes(p).drop_last() =~= frame_body(p).push(xor_all(frame_body(p))));
    crate::utils::lemma_xor_all_with_checksum(frame_body(p));
}

/// Decoding the bytes of a packet to or from unit board 1 to 6 gives back
/// the packet.
pub proof fn lemma_decode_encoded(p: PacketView)
    requires
        1 <= p.wedge_id <= 6,
    ensures
        decoded_frame(frame_bytes(p)) == Ok::<PacketView, ParseFailure>(p),
{
    let d = frame_bytes(p);
    let n = d.len() as int;
    assert(d.take(n - 2) =~= frame_body(p));
    assert(d[n - 2] == xor_all(frame_body(p)));
    assert(d.subrange(2, payload_end(n)) =~= p.data);
}

/// A frame that decodes, ends with the end byte and carries the plain
/// checksum of its body is the encoding of the packet it decodes to.
pub proof fn lemma_encode_decoded(d: Seq<u8>)
    requires
        d.len() >= 4,
        d.last() == END_BYTE,
        d[d.len() - 2] == xor_all(d.take(d.len() - 2)),
        decoded_frame(d) is Ok,
    ensures
        frame_bytes(decoded_frame(d)->Ok_0) == d,
{
    let n = d.len() as int;
    let p = decoded_frame(d)->Ok_0;
    assert(frame_body(p) =~= d.take(n - 2));
    assert(frame_bytes(p) =~= d);
}

} // verus!
