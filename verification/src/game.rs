//! What the bridge answers the game in place of the sync board: the sync
//! board parameters, the board version packet and the touch bits.
use vstd::prelude::*;
use vstd::utf8::encode_utf8;

use crate::utils::{append_bytes, calc_checksum, xor_all};

verus! {

/// The three parameter lines that the game asks of the sync board.
pub struct SyncBoardParams<'a> {
    pub param0000: &'a str,
    pub param0016: &'a str,
    pub param0032: &'a str,
}

impl SyncBoardParams<'static> {
    /// The parameters of the cabinet's sync board.
    pub fn get() -> (p: SyncBoardParams<'static>)
        ensures
            p.param0000@
                == "    0    0    1    2    3    4    5   15   15   15   15   15   15   11   11   11"@,
            p.param0016@
                == "   11   11   11  128  103  103  115  138  127  103  105  111  126  113   95  100"@,
            p.param0032@
                == "  101  115   98   86   76   67   68   48  117    0   82  154    0    6   35    4"@,
    {
        SyncBoardParams {
            param0000: "    0    0    1    2    3    4    5   15   15   15   15   15   15   11   11   11",
            param0016: "   11   11   11  128  103  103  115  138  127  103  105  111  126  113   95  100",
            param0032: "  101  115   98   86   76   67   68   48  117    0   82  154    0    6   35    4",
        }
    }
}

/// The version packet of the sync board and its unit boards.
pub struct UnitBoardVersionPacket<'a> {
    pub sync_board_version: &'a str,
    pub unit_board_version: Vec<&'a str>,
    pub side: bool,
}

/// The parts one after the other.
pub open spec fn concat_all(parts: Seq<Seq<u8>>) -> Seq<u8>
    decreases parts.len(),
{
    if parts.len() == 0 {
        Seq::empty()
    } else {
        concat_all(parts.drop_last()) + parts.last()
    }
}

/// `L` (`0x4C`) for the left side of the cabinet, `R` (`0x52`) for the right.
pub open spec fn side_byte(side: bool) -> u8 {
    if side {
        0x4C
    } else {
        0x52
    }
}

/// The version packet before its checksum: `0xA8`, the sync board version,
/// the side letter and the unit board versions.
pub open spec fn version_body(sync: Seq<u8>, side: bool, units: Seq<Seq<u8>>) -> Seq<u8> {
    seq![0xA8u8] + sync + seq![side_byte(side)] + concat_all(units)
}

/// The version packet: its body and the checksum of the body followed by
/// `0x80`.
pub open spec fn version_packet(sync: Seq<u8>, side: bool, units: Seq<Seq<u8>>) -> Seq<u8> {
    let b = version_body(sync, side, units);
    b.push(xor_all(b.push(0x80)))
}

/// The UTF-8 bytes of each string.
pub open spec fn str_bytes(v: Seq<&str>) -> Seq<Seq<u8>> {
    v.map_values(|s: &str| encode_utf8(s@))
}

/// The checksum byte of a version packet whose body is `s`.
pub fn version_checksum(s: &Vec<u8>) -> (c: u8)
    ensures
        c == xor_all(s@.push(0x80)),
{
    let c = calc_checksum(s);
    proof {
        crate::utils::lemma_xor_all_push(s@, 0x80u8);
    }
    c ^ 0x80
}

impl<'a> UnitBoardVersionPacket<'a> {
    /// The bytes of the version packet.
    pub fn serialize(&self) -> (s: Vec<u8>)
        ensures
            s@ == version_packet(
                encode_utf8(self.sync_board_version@),
                self.side,
                str_bytes(self.unit_board_version@),
            ),
    {
        let mut s: Vec<u8> = vec![0xA8];
        append_bytes(&mut s, self.sync_board_version.as_bytes());
        if self.side {
            s.push(0x4C)
        } else {
            s.push(0x52)
        };
        let ghost head = s@;
        let mut i: usize = 0;
        while i < self.unit_board_version.len()
            invariant
                i <= self.unit_board_version@.len(),
                s@ == head + concat_all(str_bytes(self.unit_board_version@).take(i as int)),
            decreases self.unit_board_version@.len() - i,
        {
            let ghost units = str_bytes(self.unit_board_version@);
            assert(units.take(i + 1).drop_last() =~= units.take(i as int));
            append_bytes(&mut s, self.unit_board_version[i].as_bytes());
            assert(s@ =~= head + concat_all(units.take(i + 1)));
            i = i + 1;
        }
        assert(str_bytes(self.unit_board_version@).take(i as int) =~= str_bytes(
            self.unit_board_version@,
        ));
        assert(s@ =~= version_body(
            encode_utf8(self.sync_board_version@),
            self.side,
            str_bytes(self.unit_board_version@),
        ));
        let c = version_checksum(&s);
        s.push(c);
        s
    }
}

/// The answer to a parameter request: the line's bytes and their checksum.
pub open spec fn param_reply(line: Seq<char>) -> Seq<u8> {
    encode_utf8(line).push(xor_all(encode_utf8(line)))
}

/// The answer to a parameter request: the line's bytes and their checksum.
pub fn param_answer(line: &str) -> (r: Vec<u8>)
    ensures
        r@ == param_reply(line@),
{
    let mut r: Vec<u8> = Vec::new();
    append_bytes(&mut r, line.as_bytes());
    let c = calc_checksum(&r);
    r.push(c);
    r
}

/// A version packet has the checksum `0x80` over all of its bytes.
pub proof fn lemma_version_packet_checksum(sync: Seq<u8>, side: bool, units: Seq<Seq<u8>>)
    ensures
        xor_all(version_packet(sync, side, units)) == 0x80,
{
    let b = version_body(sync, side, units);
    crate::utils::lemma_xor_all_push(b, 0x80u8);
    crate::utils::lemma_xor_all_push(b, xor_all(b.push(0x80)));
    let x = xor_all(b);
    assert(x ^ (x ^ 0x80u8) == 0x80u8) by (bit_vector);
}

/// A version packet starts with `0xA8`, then the sync board version, then
/// `L` (`0x4C`) on the left side and `R` (`0x52`) on the right.
pub proof fn lemma_version_packet_head(sync: Seq<u8>, side: bool, units: Seq<Seq<u8>>)
    ensures
        version_packet(sync, side, units)[0] == 0xA8,
        version_packet(sync, side, units).subrange(1, 1 + sync.len() as int) == sync,
        version_packet(sync, side, units)[1 + sync.len() as int] == if side {
            0x4Cu8
        } else {
            0x52u8
        },
{
    let v = version_packet(sync, side, units);
    assert(v.subrange(1, 1 + sync.len() as int) =~= sync);
}

/// Parts that all have `l` bytes stand one after the other: part `k` is at
/// `l * k`.
pub proof fn lemma_concat_uniform(parts: Seq<Seq<u8>>, l: int)
    requires
        l >= 0,
        forall|k: int| 0 <= k < parts.len() ==> (#[trigger] parts[k]).len() == l,
    ensures
        concat_all(parts).len() == l * parts.len(),
        forall|k: int|
            0 <= k < parts.len() ==> concat_all(parts).subrange(l * k, l * k + l) == #[trigger] parts[k],
    decreases parts.len(),
{
    let n = parts.len() as int;
    if n > 0 {
        let q = parts.drop_last();
        assert forall|k: int| 0 <= k < q.len() implies (#[trigger] q[k]).len() == l by {
            assert(q[k] == parts[k]);
        }
        lemma_concat_uniform(q, l);
        let c = concat_all(parts);
        let cq = concat_all(q);
        assert(c == cq + parts[n - 1]);
        assert(l * n == l * (n - 1) + l) by (nonlinear_arith);
        assert forall|k: int| 0 <= k < n implies c.subrange(l * k, l * k + l) == #[trigger] parts[k] by {
            if k < n - 1 {
                assert(l * k + l <= l * (n - 1)) by (nonlinear_arith)
                    requires
                        0 <= k < n - 1,
                        l >= 0,
                ;
                assert(0 <= l * k) by (nonlinear_arith)
                    requires
                        0 <= k,
                        l >= 0,
                ;
                assert(q[k] == parts[k]);
                assert(cq.subrange(l * k, l * k + l) == q[k]);
                assert(c.subrange(l * k, l * k + l) =~= cq.subrange(l * k, l * k + l));
            } else {
                assert(c.subrange(l * k, l * k + l) =~= parts[n - 1]);
            }
        }
    }
}

/// In a version packet whose unit board versions all have `l` bytes, unit
/// board `k`'s version stands right after the side letter and the `k`
/// versions before it.
pub proof fn lemma_version_packet_units(sync: Seq<u8>, side: bool, units: Seq<Seq<u8>>, l: int)
    requires
        l >= 0,
        forall|k: int| 0 <= k < units.len() ==> (#[trigger] units[k]).len() == l,
    ensures
        version_packet(sync, side, units).len() == 3 + sync.len() + l * units.len(),
        forall|k: int|
            0 <= k < units.len() ==> version_packet(sync, side, units).subrange(
                2 + sync.len() as int + l * k,
                2 + sync.len() as int + l * k + l,
            ) == #[trigger] units[k],
{
    lemma_concat_uniform(units, l);
    let v = version_packet(sync, side, units);
    let head = seq![0xA8u8] + sync + seq![side_byte(side)];
    let c = concat_all(units);
    assert(version_body(sync, side, units) == head + c);
    assert forall|k: int| 0 <= k < units.len() implies v.subrange(
        2 + sync.len() as int + l * k,
        2 + sync.len() as int + l * k + l,
    ) == #[trigger] units[k] by {
        assert(l * k + l <= l * units.len()) by (nonlinear_arith)
            requires
                0 <= k < units.len(),
                l >= 0,
        ;
        assert(0 <= l * k) by (nonlinear_arith)
            requires
                0 <= k,
                l >= 0,
        ;
        assert(v.subrange(2 + sync.len() as int + l * k, 2 + sync.len() as int + l * k + l) =~= c.subrange(
            l * k,
            l * k + l,
        ));
    }
}

/// The version packet of `UnitBoardVersionPacket::serialize`: when the unit
/// board versions all have `l` bytes, unit board `k`'s bytes are those of
/// `unit_board_version[k]`, in order.
pub proof fn lemma_str_version_units(sync: Seq<u8>, side: bool, v: Seq<&str>, l: int)
    requires
        l >= 0,
        forall|k: int| 0 <= k < v.len() ==> encode_utf8((#[trigger] v[k])@).len() == l,
    ensures
        forall|k: int|
            0 <= k < v.len() ==> version_packet(sync, side, str_bytes(v)).subrange(
                2 + sync.len() as int + l * k,
                2 + sync.len() as int + l * k + l,
            ) == encode_utf8((#[trigger] v[k])@),
{
    let units = str_bytes(v);
    assert forall|k: int| 0 <= k < units.len() implies (#[trigger] units[k]).len() == l by {
        assert(units[k] == encode_utf8(v[k]@));
    }
    lemma_version_packet_units(sync, side, units, l);
    assert forall|k: int| 0 <= k < v.len() implies version_packet(sync, side, units).subrange(
        2 + sync.len() as int + l * k,
        2 + sync.len() as int + l * k + l,
    ) == encode_utf8((#[trigger] v[k])@) by {
        assert(units[k] == encode_utf8(v[k]@));
    }
}

/// The answer to a parameter request has the checksum 0 over all of its
/// bytes.
pub proof fn lemma_param_reply_checksum(line: Seq<char>)
    ensures
        xor_all(param_reply(line)) == 0,
{
    crate::utils::lemma_xor_all_with_checksum(encode_utf8(line));
}

/// The bits of `b` in the reverse order: bit `i` goes to bit `7 - i`.
pub open spec fn reversed_bits(b: u8) -> u8 {
    ((b & 0x01) << 7u8) | ((b & 0x02) << 5u8) | ((b & 0x04) << 3u8) | ((b & 0x08) << 1u8) | ((b
        & 0x10) >> 1u8) | ((b & 0x20) >> 3u8) | ((b & 0x40) >> 5u8) | ((b & 0x80) >> 7u8)
}

/// `u8::reverse_bits`, which reverses the order of the bits of a byte.
#[verifier::external_body]
fn reverse_bits_u8(b: u8) -> (r: u8)
    ensures
        r == reversed_bits(b),
{
    b.reverse_bits()
}

/// Bit `i` of the reversed byte is bit `7 - i` of the byte.
pub proof fn lemma_reversed_bit(b: u8, i: u8)
    requires
        i < 8,
    ensures
        (reversed_bits(b) >> i) & 1 == (b >> (7 - i) as u8) & 1,
{
    assert(i < 8 ==> (reversed_bits(b) >> i) & 1 == (b >> (7 - i) as u8) & 1) by (bit_vector);
}

/// The touch bits of one unit board byte as the game reads them: on the
/// left side the five sensor bits in the reverse order, on the right side
/// the byte without its top bit.
pub open spec fn touch_bits(byte: u8, side: bool) -> u8 {
    if side {
        reversed_bits(byte) >> 3u8
    } else {
        byte & 0x7f
    }
}

/// Maps a byte of touch data from a unit board to the layout of the game.
pub fn fix_touch(byte: u8, side: bool) -> (r: u8)
    ensures
        r == touch_bits(byte, side),
{
    if side {
        reverse_bits_u8(byte) >> 3
    } else {
        byte & 0x7f
    }
}

/// On the left side, bit `i` of the touch bits is bit `4 - i` of the byte,
/// for the five low bits, and the three high bits are clear; on the right
/// side the touch bits are the seven low bits of the byte.
pub proof fn lemma_touch_bits(byte: u8, side: bool, i: u8)
    requires
        i < 8,
    ensures
        side && i < 5 ==> (touch_bits(byte, side) >> i) & 1 == (byte >> (4 - i) as u8) & 1,
        side ==> touch_bits(byte, side) < 32,
        !side ==> touch_bits(byte, side) < 128,
        !side && i < 7 ==> (touch_bits(byte, side) >> i) & 1 == (byte >> i) & 1,
{
    assert(i < 5 ==> ((reversed_bits(byte) >> 3u8) >> i) & 1 == (byte >> (4 - i) as u8) & 1)
        by (bit_vector);
    assert(reversed_bits(byte) >> 3u8 < 32) by (bit_vector);
    assert(byte & 0x7f < 128) by (bit_vector);
    assert(i < 7 ==> ((byte & 0x7f) >> i) & 1 == (byte >> i) & 1) by (bit_vector);
}

} // verus!
