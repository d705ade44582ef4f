//! Packets exchanged with the unit boards over their shared serial line, as
//! the bridge program reads them: a read may hold several packets, and a
//! packet may come with a stray leading byte or without its end byte.
use vstd::prelude::*;

use crate::utils::xor_all;
use crate::frame::{
    address_byte, decode_frame, decoded_frame, encode_frame, failure_message, failure_text,
    frame_body, frame_bytes, is_board_address, is_sync_address, lemma_decode_encoded,
    PacketView, ParseFailure, END_BYTE,
};
use vstd::utf8::{encode_utf8, is_char_boundary, valid_utf8};

verus! {

/// A packet to or from a unit board.
#[derive(Debug)]
pub struct CommandPacket {
    pub out: bool,
    pub wedge_id: u8,
    pub command_id: u8,
    pub data: Vec<u8>,
}

impl View for CommandPacket {
    type V = PacketView;

    open spec fn view(&self) -> PacketView {
        PacketView {
            out: self.out,
            wedge_id: self.wedge_id,
            command_id: self.command_id,
            data: self.data@,
        }
    }
}

/// The views of a sequence of packets.
pub open spec fn packet_views(s: Seq<CommandPacket>) -> Seq<PacketView> {
    s.map_values(|p: CommandPacket| p@)
}

/// The bytes that the bridge decodes: a trailing `0` is dropped, a missing
/// end byte is added, and a first byte that is no address is dropped.
pub open spec fn unit_normalized(d: Seq<u8>) -> Seq<u8>
    recommends
        d.len() >= 4,
{
    let d1 = if d.last() == 0 {
        d.drop_last()
    } else if d.last() == END_BYTE {
        d
    } else {
        d.push(END_BYTE)
    };
    if is_board_address(d1[0]) || is_sync_address(d1[0]) {
        d1
    } else {
        d1.drop_first()
    }
}

/// The packet that `CommandPacket::new` reads from `d`, or why it fails: a
/// read of fewer than four bytes is too short; a longer one is repaired by
/// `unit_normalized` and decoded.
pub open spec fn unit_parsed(d: Seq<u8>) -> Result<PacketView, ParseFailure> {
    if d.len() < 4 {
        Err(ParseFailure::InvalidSize)
    } else {
        decoded_frame(unit_normalized(d))
    }
}

/// The pieces of `s` between the bytes equal to `sep`, as `<[u8]>::split`
/// gives them (an empty input is one empty piece).
pub open spec fn split_on(s: Seq<u8>, sep: u8) -> Seq<Seq<u8>>
    decreases s.len(),
{
    if s.len() == 0 {
        seq![Seq::<u8>::empty()]
    } else {
        let prev = split_on(s.drop_last(), sep);
        if s.last() == sep {
            prev.push(Seq::<u8>::empty())
        } else {
            prev.update(prev.len() - 1, prev.last().push(s.last()))
        }
    }
}

/// The packets read, in order, from the pieces longer than one byte that
/// parse once the end byte that the split took off is put back.
pub open spec fn parsed_pieces(pieces: Seq<Seq<u8>>) -> Seq<PacketView>
    decreases pieces.len(),
{
    if pieces.len() == 0 {
        Seq::empty()
    } else {
        let rest = parsed_pieces(pieces.drop_last());
        let piece = pieces.last();
        if piece.len() > 1 && unit_parsed(piece.push(END_BYTE)) is Ok {
            rest.push(unit_parsed(piece.push(END_BYTE))->Ok_0)
        } else {
            rest
        }
    }
}

/// The packets that a read of the serial line holds.
pub open spec fn dissected(data: Seq<u8>) -> Seq<PacketView> {
    parsed_pieces(split_on(data, END_BYTE))
}

/// The touch data of each answer to a touch poll: the board's id and the
/// first four payload bytes, one per sensor row.
pub fn touch_report(packets: &Vec<CommandPacket>) -> (r: Vec<(u8, Vec<u8>)>)
    requires
        forall|k: int| 0 <= k < packets@.len() ==> (#[trigger] packets@[k]).data@.len() >= 4,
    ensures
        r@.len() == packets@.len(),
        forall|k: int|
            0 <= k < r@.len() ==> (#[trigger] r@[k]).0 == packets@[k].wedge_id && r@[k].1@
                == packets@[k].data@.take(4),
{
    let mut r: Vec<(u8, Vec<u8>)> = Vec::new();
    let mut i: usize = 0;
    while i < packets.len()
        invariant
            i <= packets@.len(),
            r@.len() == i,
            forall|k: int| 0 <= k < packets@.len() ==> (#[trigger] packets@[k]).data@.len() >= 4,
            forall|k: int|
                0 <= k < r@.len() ==> (#[trigger] r@[k]).0 == packets@[k].wedge_id && r@[k].1@
                    == packets@[k].data@.take(4),
        decreases packets@.len() - i,
    {
        let p = &packets[i];
        assert(packets@[i as int].data@.len() >= 4);
        r.push((p.wedge_id, crate::utils::subvec(&p.data, 0, 4)));
        i = i + 1;
    }
    r
}

/// The version of each board that answered a version request: its id and
/// the text of the first six payload bytes; nothing if an answer's payload
/// is not UTF-8 text whose sixth byte ends a character.
pub fn versions_report(packets: &Vec<CommandPacket>) -> (r: Option<Vec<(u8, String)>>)
    ensures
        r is Some <==> forall|k: int|
            0 <= k < packets@.len() ==> valid_utf8((#[trigger] packets@[k]).data@)
                && is_char_boundary(packets@[k].data@, 6),
        r matches Some(v) ==> v@.len() == packets@.len() && forall|k: int|
            0 <= k < v@.len() ==> (#[trigger] v@[k]).0 == packets@[k].wedge_id && encode_utf8(
                v@[k].1@,
            ) == packets@[k].data@.take(6),
{
    let mut r: Vec<(u8, String)> = Vec::new();
    let mut i: usize = 0;
    while i < packets.len()
        invariant
            i <= packets@.len(),
            r@.len() == i,
            forall|k: int|
                0 <= k < i ==> valid_utf8((#[trigger] packets@[k]).data@) && is_char_boundary(
                    packets@[k].data@,
                    6,
                ),
            forall|k: int|
                0 <= k < r@.len() ==> (#[trigger] r@[k]).0 == packets@[k].wedge_id
                    && encode_utf8(r@[k].1@) == packets@[k].data@.take(6),
        decreases packets@.len() - i,
    {
        let p = &packets[i];
        match crate::utils::version_prefix(&p.data) {
            Some(v) => r.push((p.wedge_id, v)),
            None => return None,
        }
        i = i + 1;
    }
    Some(r)
}

/// A packet to or from unit board 1 to 6 reads back from its own bytes.
pub proof fn lemma_unit_parse_encoded(p: PacketView)
    requires
        1 <= p.wedge_id <= 6,
    ensures
        unit_parsed(frame_bytes(p)) == Ok::<PacketView, ParseFailure>(p),
{
    let d = frame_bytes(p);
    assert(unit_normalized(d) =~= d);
    lemma_decode_encoded(p);
}

proof fn lemma_split_on_nonempty(s: Seq<u8>, sep: u8)
    ensures
        split_on(s, sep).len() >= 1,
    decreases s.len(),
{
    if s.len() > 0 {
        lemma_split_on_nonempty(s.drop_last(), sep);
    }
}

/// Bytes without the separator extend the last piece.
proof fn lemma_split_on_extend(x: Seq<u8>, w: Seq<u8>, sep: u8)
    requires
        !w.contains(sep),
    ensures
        split_on(x + w, sep) == split_on(x, sep).update(
            split_on(x, sep).len() - 1,
            split_on(x, sep).last() + w,
        ),
    decreases w.len(),
{
    lemma_split_on_nonempty(x, sep);
    let s = split_on(x, sep);
    if w.len() == 0 {
        assert(x + w =~= x);
        assert(s.last() + w =~= s.last());
        assert(s.update(s.len() - 1, s.last()) =~= s);
    } else {
        let w1 = w.drop_last();
        assert(!w1.contains(sep)) by {
            if w1.contains(sep) {
                let k = choose|k: int| 0 <= k < w1.len() && w1[k] == sep;
                assert(w[k] == sep);
            }
        }
        assert(w[w.len() - 1] != sep);
        lemma_split_on_extend(x, w1, sep);
        assert((x + w).drop_last() =~= x + w1);
        assert((s.last() + w1).push(w.last()) =~= s.last() + w);
        assert(split_on(x + w, sep) =~= s.update(s.len() - 1, s.last() + w));
    }
}

/// The bytes of the packets one after the other, as the boards send them in
/// one burst.
pub open spec fn frames_of(ps: Seq<PacketView>) -> Seq<u8>
    decreases ps.len(),
{
    if ps.len() == 0 {
        Seq::empty()
    } else {
        frames_of(ps.drop_last()) + frame_bytes(ps.last())
    }
}

/// A packet's bytes without the end byte.
pub open spec fn frame_piece(p: PacketView) -> Seq<u8> {
    frame_body(p).push(xor_all(frame_body(p)))
}

/// A packet that the reader finds again in a burst: from or to board 1 to
/// 6, and no byte `0xF0` before its end byte.
pub open spec fn dissectable(p: PacketView) -> bool {
    &&& 1 <= p.wedge_id <= 6
    &&& p.command_id != END_BYTE
    &&& !p.data.contains(END_BYTE)
    &&& xor_all(frame_body(p)) != END_BYTE
}

proof fn lemma_frame_piece_no_end(p: PacketView)
    requires
        dissectable(p),
    ensures
        !frame_piece(p).contains(END_BYTE),
{
    let w = frame_piece(p);
    if w.contains(END_BYTE) {
        let k = choose|k: int| 0 <= k < w.len() && w[k] == END_BYTE;
        if 2 <= k < w.len() - 1 {
            assert(p.data[k - 2] == END_BYTE);
        }
    }
}

proof fn lemma_split_frames(ps: Seq<PacketView>)
    requires
        forall|k: int| 0 <= k < ps.len() ==> dissectable(#[trigger] ps[k]),
    ensures
        split_on(frames_of(ps), END_BYTE) == ps.map_values(|p: PacketView| frame_piece(p)).push(
            Seq::<u8>::empty(),
        ),
    decreases ps.len(),
{
    if ps.len() == 0 {
        assert(ps.map_values(|p: PacketView| frame_piece(p)).push(Seq::<u8>::empty()) =~= seq![
            Seq::<u8>::empty(),
        ]);
    } else {
        let q = ps.drop_last();
        let p = ps.last();
        assert(dissectable(ps[ps.len() - 1]));
        lemma_split_frames(q);
        lemma_frame_piece_no_end(p);
        let x = frames_of(q);
        let w = frame_piece(p);
        lemma_split_on_extend(x, w, END_BYTE);
        assert(frames_of(ps) =~= (x + w).push(END_BYTE));
        assert((x + w).push(END_BYTE).drop_last() =~= x + w);
        assert(Seq::<u8>::empty() + w =~= w);
        assert(ps.map_values(|p: PacketView| frame_piece(p)) =~= q.map_values(
            |p: PacketView| frame_piece(p),
        ).push(w));
    }
}

proof fn lemma_read_piece(p: PacketView)
    requires
        dissectable(p),
    ensures
        frame_piece(p).len() > 1,
        unit_parsed(frame_piece(p).push(END_BYTE)) == Ok::<PacketView, ParseFailure>(p),
{
    let w = frame_piece(p);
    assert(w.push(END_BYTE) =~= frame_bytes(p));
    lemma_unit_parse_encoded(p);
}

proof fn lemma_parse_frame_pieces(ps: Seq<PacketView>)
    requires
        forall|k: int| 0 <= k < ps.len() ==> dissectable(#[trigger] ps[k]),
    ensures
        parsed_pieces(ps.map_values(|p: PacketView| frame_piece(p))) == ps,
    decreases ps.len(),
{
    let pieces = ps.map_values(|p: PacketView| frame_piece(p));
    if ps.len() == 0 {
        assert(ps =~= Seq::<PacketView>::empty());
    } else {
        let q = ps.drop_last();
        assert(dissectable(ps[ps.len() - 1]));
        lemma_parse_frame_pieces(q);
        lemma_read_piece(ps.last());
        assert(pieces.drop_last() =~= q.map_values(|p: PacketView| frame_piece(p)));
        assert(ps =~= q.push(ps.last()));
    }
}

/// A burst of packets that the reader can tell apart reads back as those
/// packets, in order.
pub proof fn lemma_dissect_frames(ps: Seq<PacketView>)
    requires
        forall|k: int| 0 <= k < ps.len() ==> dissectable(#[trigger] ps[k]),
    ensures
        dissected(frames_of(ps)) == ps,
{
    lemma_split_frames(ps);
    lemma_parse_frame_pieces(ps);
    let pieces = ps.map_values(|p: PacketView| frame_piece(p));
    assert(pieces.push(Seq::<u8>::empty()).drop_last() =~= pieces);
}

/// The packets read from pieces one after the other are those read from
/// each part, in order.
proof fn lemma_parsed_pieces_concat(a: Seq<Seq<u8>>, b: Seq<Seq<u8>>)
    ensures
        parsed_pieces(a + b) == parsed_pieces(a) + parsed_pieces(b),
    decreases b.len(),
{
    if b.len() == 0 {
        assert(a + b =~= a);
        assert(parsed_pieces(a) + parsed_pieces(b) =~= parsed_pieces(a));
    } else {
        lemma_parsed_pieces_concat(a, b.drop_last());
        assert((a + b).drop_last() =~= a + b.drop_last());
        assert((a + b).last() == b.last());
        let pa = parsed_pieces(a);
        let pb = parsed_pieces(b.drop_last());
        let piece = b.last();
        if piece.len() > 1 && unit_parsed(piece.push(END_BYTE)) is Ok {
            assert((pa + pb).push(unit_parsed(piece.push(END_BYTE))->Ok_0) =~= pa + pb.push(
                unit_parsed(piece.push(END_BYTE))->Ok_0,
            ));
        }
    }
}

/// The pieces of bytes `x` followed by a burst: the first packet's piece is
/// appended to the last piece of `x`.
proof fn lemma_split_after(x: Seq<u8>, ps: Seq<PacketView>)
    requires
        ps.len() >= 1,
        forall|k: int| 0 <= k < ps.len() ==> dissectable(#[trigger] ps[k]),
    ensures
        split_on(x + frames_of(ps), END_BYTE) == split_on(x, END_BYTE).drop_last().push(
            split_on(x, END_BYTE).last() + frame_piece(ps[0]),
        ) + ps.drop_first().map_values(|p: PacketView| frame_piece(p)).push(Seq::<u8>::empty()),
    decreases ps.len(),
{
    lemma_split_on_nonempty(x, END_BYTE);
    let sx = split_on(x, END_BYTE);
    let p = ps.last();
    let q = ps.drop_last();
    assert(dissectable(ps[ps.len() - 1]));
    lemma_frame_piece_no_end(p);
    let w = frame_piece(p);
    if ps.len() == 1 {
        assert(frames_of(q) =~= Seq::<u8>::empty());
        assert(x + frames_of(ps) =~= (x + w).push(END_BYTE));
        lemma_split_on_extend(x, w, END_BYTE);
        assert((x + w).push(END_BYTE).drop_last() =~= x + w);
        assert(ps[0] == p);
        assert(ps.drop_first().map_values(|p: PacketView| frame_piece(p)) =~= Seq::<
            Seq<u8>,
        >::empty());
        assert(split_on(x + frames_of(ps), END_BYTE) =~= sx.drop_last().push(sx.last() + w)
            + Seq::<Seq<u8>>::empty().push(Seq::<u8>::empty()));
    } else {
        assert forall|k: int| 0 <= k < q.len() implies dissectable(#[trigger] q[k]) by {
            assert(q[k] == ps[k]);
        }
        lemma_split_after(x, q);
        let y = x + frames_of(q);
        assert(x + frames_of(ps) =~= (y + w).push(END_BYTE));
        lemma_split_on_extend(y, w, END_BYTE);
        assert((y + w).push(END_BYTE).drop_last() =~= y + w);
        let sy = split_on(y, END_BYTE);
        let head = sx.drop_last().push(sx.last() + frame_piece(q[0]));
        let mid = q.drop_first().map_values(|p: PacketView| frame_piece(p));
        assert(sy == head + mid.push(Seq::<u8>::empty()));
        assert(q[0] == ps[0]);
        assert(Seq::<u8>::empty() + w =~= w);
        assert(sy.update(sy.len() - 1, sy.last() + w) =~= head + mid.push(w));
        assert(ps.drop_first().map_values(|p: PacketView| frame_piece(p)) =~= mid.push(w));
        assert(split_on(x + frames_of(ps), END_BYTE) =~= head + mid.push(w).push(
            Seq::<u8>::empty(),
        ));
    }
}

/// A burst in which a stray byte that is no address (and no end byte)
/// follows an end byte still reads back as all of its packets: the reader
/// drops the stray byte from the front of the next piece.
pub proof fn lemma_dissect_with_stray_byte(ps1: Seq<PacketView>, x: u8, ps2: Seq<PacketView>)
    requires
        forall|k: int| 0 <= k < ps1.len() ==> dissectable(#[trigger] ps1[k]),
        forall|k: int| 0 <= k < ps2.len() ==> dissectable(#[trigger] ps2[k]),
        ps2.len() >= 1,
        !is_board_address(x),
        !is_sync_address(x),
        x != END_BYTE,
    ensures
        dissected(frames_of(ps1) + seq![x] + frames_of(ps2)) == ps1 + ps2,
{
    let a = frames_of(ps1) + seq![x];
    let pieces1 = ps1.map_values(|p: PacketView| frame_piece(p));
    lemma_split_frames(ps1);
    lemma_split_on_extend(frames_of(ps1), seq![x], END_BYTE);
    assert(!seq![x].contains(END_BYTE)) by {
        if seq![x].contains(END_BYTE) {
            let k = choose|k: int| 0 <= k < 1 && seq![x][k] == END_BYTE;
        }
    }
    let sa = split_on(a, END_BYTE);
    assert(sa =~= pieces1.push(seq![x]));
    lemma_split_after(a, ps2);
    let p0 = ps2[0];
    let first = seq![x] + frame_piece(p0);
    let rest = ps2.drop_first();
    let rest_pieces = rest.map_values(|p: PacketView| frame_piece(p));
    assert(sa.drop_last() =~= pieces1);
    let all = split_on(a + frames_of(ps2), END_BYTE);
    assert(all == pieces1.push(first) + rest_pieces.push(Seq::<u8>::empty()));
    assert(frames_of(ps1) + seq![x] + frames_of(ps2) == a + frames_of(ps2));
    // what each part reads back as
    lemma_parse_frame_pieces(ps1);
    assert forall|k: int| 0 <= k < rest.len() implies dissectable(#[trigger] rest[k]) by {
        assert(rest[k] == ps2[k + 1]);
    }
    lemma_parse_frame_pieces(rest);
    assert(dissectable(ps2[0]));
    lemma_unit_parse_encoded(p0);
    assert(first.push(END_BYTE).drop_first() =~= frame_bytes(p0));
    assert(unit_normalized(first.push(END_BYTE)) =~= frame_bytes(p0));
    assert(unit_parsed(first.push(END_BYTE)) == Ok::<PacketView, ParseFailure>(p0));
    assert(seq![first].drop_last() =~= Seq::<Seq<u8>>::empty());
    assert(first.len() > 1);
    assert(seq![first].last() == first);
    assert(parsed_pieces(Seq::<Seq<u8>>::empty()) == Seq::<PacketView>::empty());
    assert(parsed_pieces(seq![first]) == Seq::<PacketView>::empty().push(p0));
    assert(parsed_pieces(seq![first]) =~= seq![p0]);
    assert(seq![Seq::<u8>::empty()].drop_last() =~= Seq::<Seq<u8>>::empty());
    assert(parsed_pieces(seq![Seq::<u8>::empty()]) =~= Seq::<PacketView>::empty());
    assert(pieces1.push(first) =~= pieces1 + seq![first]);
    assert(rest_pieces.push(Seq::<u8>::empty()) =~= rest_pieces + seq![Seq::<u8>::empty()]);
    lemma_parsed_pieces_concat(pieces1 + seq![first], rest_pieces + seq![Seq::<u8>::empty()]);
    lemma_parsed_pieces_concat(pieces1, seq![first]);
    lemma_parsed_pieces_concat(rest_pieces, seq![Seq::<u8>::empty()]);
    assert(ps2 =~= seq![p0] + rest);
    assert(ps1 + ps2 =~= ps1 + seq![p0] + rest + Seq::<PacketView>::empty());
}

impl CommandPacket {
    /// The bytes of the packet on the wire.
    pub fn serialize(&self) -> (r: Vec<u8>)
        requires
            address_byte(self.out, self.wedge_id) < 256,
        ensures
            r@ == frame_bytes(self@),
    {
        encode_frame(self.out, self.wedge_id, self.command_id, &self.data)
    }

    /// The same packet for each wedge id of the range, in order.
    pub fn bulk(&self, r: core::ops::Range<u8>) -> (commands: Vec<CommandPacket>)
        ensures
            commands@.len() == if r.start < r.end {
                r.end - r.start
            } else {
                0
            },
            forall|k: int|
                0 <= k < commands@.len() ==> #[trigger] commands@[k]@ == (PacketView {
                    wedge_id: (r.start + k) as u8,
                    ..self@
                }),
    {
        let mut commands: Vec<CommandPacket> = Vec::new();
        let mut i: u8 = r.start;
        while i < r.end
            invariant
                r.start <= i || r.end <= r.start,
                i <= r.end || r.end <= r.start,
                r.start < r.end ==> commands@.len() == i - r.start,
                r.start >= r.end ==> commands@.len() == 0 && i == r.start,
                forall|k: int|
                    0 <= k < commands@.len() ==> #[trigger] commands@[k]@ == (PacketView {
                        wedge_id: (r.start + k) as u8,
                        ..self@
                    }),
            decreases r.end - i,
        {
            let data = self.data.clone();
            assert(data@ =~= self.data@);
            commands.push(
                CommandPacket {
                    out: self.out,
                    wedge_id: i,
                    command_id: self.command_id,
                    data: data,
                },
            );
            i = i + 1;
        }
        commands
    }

    /// The packets that a read of the serial line holds: the pieces between
    /// the end bytes, longer than one byte, that parse with their end byte
    /// put back, in order. The pieces that do not parse are left out.
    pub fn dissect(data: Vec<u8>) -> (commands: Vec<CommandPacket>)
        ensures
            packet_views(commands@) == dissected(data@),
    {
        let mut commands: Vec<CommandPacket> = Vec::new();
        let mut cur: Vec<u8> = Vec::new();
        let mut i: usize = 0;
        assert(data@.take(0) =~= Seq::<u8>::empty());
        while i < data.len()
            invariant
                i <= data@.len(),
                split_on(data@.take(i as int), END_BYTE).len() >= 1,
                cur@ == split_on(data@.take(i as int), END_BYTE).last(),
                packet_views(commands@) == parsed_pieces(
                    split_on(data@.take(i as int), END_BYTE).drop_last(),
                ),
            decreases data@.len() - i,
        {
            let ghost prev = split_on(data@.take(i as int), END_BYTE);
            assert(data@.take(i + 1).drop_last() =~= data@.take(i as int));
            let b = data[i];
            if b == END_BYTE {
                Self::take_piece(&mut commands, cur);
                cur = Vec::new();
                proof {
                    let next = split_on(data@.take(i + 1), END_BYTE);
                    assert(next == prev.push(Seq::<u8>::empty()));
                    assert(next.drop_last() =~= prev);
                    assert(prev =~= prev.drop_last().push(prev.last()));
                }
            } else {
                cur.push(b);
                proof {
                    let next = split_on(data@.take(i + 1), END_BYTE);
                    assert(next.drop_last() =~= prev.drop_last());
                }
            }
            i = i + 1;
        }
        assert(data@.take(data@.len() as int) =~= data@);
        let ghost pieces = split_on(data@, END_BYTE);
        Self::take_piece(&mut commands, cur);
        assert(pieces =~= pieces.drop_last().push(pieces.last()));
        commands
    }

    /// Parses one piece of a read, with its end byte put back, and keeps the
    /// packet if there is one.
    fn take_piece(commands: &mut Vec<CommandPacket>, piece: Vec<u8>)
        ensures
            packet_views(final(commands)@) == (if piece@.len() > 1 && unit_parsed(
                piece@.push(END_BYTE),
            ) is Ok {
                packet_views(old(commands)@).push(unit_parsed(piece@.push(END_BYTE))->Ok_0)
            } else {
                packet_views(old(commands)@)
            }),
    {
        if piece.len() > 1 {
            let ghost p0 = piece@;
            let mut frame = piece;
            frame.push(END_BYTE);
            match CommandPacket::new(frame) {
                Ok(c) => {
                    commands.push(c);
                    assert(packet_views(commands@) =~= packet_views(old(commands)@).push(
                        unit_parsed(p0.push(END_BYTE))->Ok_0,
                    ));
                },
                Err(_) => {},
            }
        }
    }

    /// Reads a packet from the bytes of one read (see `unit_parsed`); on
    /// failure, the text that says why.
    pub fn new(data: Vec<u8>) -> (r: Result<CommandPacket, String>)
        ensures
            match (r, unit_parsed(data@)) {
                (Ok(p), Ok(v)) => p@ == v,
                (Err(e), Err(f)) => e@ == failure_message(f),
                _ => false,
            },
    {
        if data.len() < 4 {
            return Err(failure_text(ParseFailure::InvalidSize).to_string());
        }
        let ghost d = data@;
        let mut data = data;
        let last = data[data.len() - 1];
        if last == 0 {
            data.pop();
        } else if last == END_BYTE {
        } else {
            data.push(END_BYTE);
        }
        let first = data[0];
        if !((209 <= first && first < 215) || (225 <= first && first < 231)) {
            data.remove(0);
        }
        assert(data@ =~= unit_normalized(d));
        match decode_frame(&data) {
            Ok((out, wedge_id, command_id, payload)) => Ok(
                CommandPacket { out, wedge_id, command_id, data: payload },
            ),
            Err(f) => Err(failure_text(f).to_string()),
        }
    }
}

} // verus!
