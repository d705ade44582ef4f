//! The threaded bridge: packets to and from the unit boards, and what is done
//! for each message of the game.
use vstd::prelude::*;
use vstd::utf8::encode_utf8;

use crate::frame::{
    address_byte, decode_frame, decoded_frame, encode_frame, failure_message, failure_text,
    frame_bytes, PacketView, ParseFailure,
};
use crate::game::{param_answer, param_reply, version_checksum, version_packet};
use crate::utils::{append_bytes, xor_all};

verus! {

/// The sync board parameters, its version and the side of the cabinet.
pub struct SyncBoardParams<'a> {
    pub param0000: &'a str,
    pub param0016: &'a str,
    pub param0032: &'a str,
    pub sync_board_version: &'a str,
    pub side: bool,
}

impl SyncBoardParams<'static> {
    /// The parameters of the cabinet's sync board, for the given side.
    pub fn get(side: &bool) -> (p: SyncBoardParams<'static>)
        ensures
            p.param0000@
                == "    0    0    1    2    3    4    5   15   15   15   15   15   15   11   11   11"@,
            p.param0016@
                == "   11   11   11  128  103  103  115  138  127  103  105  111  126  113   95  100"@,
            p.param0032@
                == "  101  115   98   86   76   67   68   48  117    0   82  154    0    6   35    4"@,
            p.sync_board_version@ == "190523"@,
            p.side == *side,
    {
        SyncBoardParams {
            param0000: "    0    0    1    2    3    4    5   15   15   15   15   15   15   11   11   11",
            param0016: "   11   11   11  128  103  103  115  138  127  103  105  111  126  113   95  100",
            param0032: "  101  115   98   86   76   67   68   48  117    0   82  154    0    6   35    4",
            sync_board_version: "190523",
            side: *side,
        }
    }
}

/// A packet to or from a unit board.
#[derive(Debug)]
pub struct CommandPacket {
    pub out: bool,
    pub wedge_id: u8,
    pub command_id: u8,
    pub data: Vec<u8>,
}

impl View for CommandPacket {
    type V = PacketView;

    open spec fn view(&self) -> PacketView {
        PacketView {
            out: self.out,
            wedge_id: self.wedge_id,
            command_id: self.command_id,
            data: self.data@,
        }
    }
}

/// The version packet of the sync board and its unit boards.
pub struct UnitBoardVersionPacket {
    pub sync_board_version: String,
    pub unit_board_version: Vec<String>,
    pub side: bool,
}

/// The UTF-8 bytes of each string.
pub open spec fn string_bytes(v: Seq<String>) -> Seq<Seq<u8>> {
    v.map_values(|s: String| encode_utf8(s@))
}

impl UnitBoardVersionPacket {
    /// The bytes of the version packet.
    pub fn serialize(&self) -> (s: Vec<u8>)
        ensures
            s@ == version_packet(
                encode_utf8(self.sync_board_version@),
                self.side,
                string_bytes(self.unit_board_version@),
            ),
    {
        let mut s: Vec<u8> = vec![0xA8];
        append_bytes(&mut s, self.sync_board_version.as_str().as_bytes());
        if self.side {
            s.push(0x4C)
        } else {
            s.push(0x52)
        };
        let ghost head = s@;
        let mut i: usize = 0;
        while i < self.unit_board_version.len()
            invariant
                i <= self.unit_board_version@.len(),
                s@ == head + crate::game::concat_all(
                    string_bytes(self.unit_board_version@).take(i as int),
                ),
            decreases self.unit_board_version@.len() - i,
        {
            let ghost units = string_bytes(self.unit_board_version@);
            assert(units.take(i + 1).drop_last() =~= units.take(i as int));
            append_bytes(&mut s, self.unit_board_version[i].as_str().as_bytes());
            assert(s@ =~= head + crate::game::concat_all(units.take(i + 1)));
            i = i + 1;
        }
        assert(string_bytes(self.unit_board_version@).take(i as int) =~= string_bytes(
            self.unit_board_version@,
        ));
        assert(s@ =~= crate::game::version_body(
            encode_utf8(self.sync_board_version@),
            self.side,
            string_bytes(self.unit_board_version@),
        ));
        let c = version_checksum(&s);
        s.push(c);
        s
    }
}

/// The packet that `CommandPacket::new` reads from `d`, or why it fails: a
/// read of fewer than four bytes is too short, and a trailing `0` is dropped
/// before decoding.
pub open spec fn wacca_parsed(d: Seq<u8>) -> Result<PacketView, ParseFailure> {
    if d.len() < 4 {
        Err(ParseFailure::InvalidSize)
    } else if d.last() == 0 {
        decoded_frame(d.drop_last())
    } else {
        decoded_frame(d)
    }
}

impl CommandPacket {
    /// The bytes of the packet on the wire.
    pub fn serialize(&self) -> (r: Vec<u8>)
        requires
            address_byte(self.out, self.wedge_id) < 256,
        ensures
            r@ == frame_bytes(self@),
    {
        encode_frame(self.out, self.wedge_id, self.command_id, &self.data)
    }

    /// Reads a packet (see `wacca_parsed`); on failure, the text that says
    /// why.
    pub fn new(data: Vec<u8>) -> (r: Result<CommandPacket, &'static str>)
        ensures
            match (r, wacca_parsed(data@)) {
                (Ok(p), Ok(v)) => p@ == v,
                (Err(e), Err(f)) => e@ == failure_message(f),
                _ => false,
            },
    {
        if data.len() < 4 {
            return Err(failure_text(ParseFailure::InvalidSize));
        }
        let mut data = data;
        if data[data.len() - 1] == 0 {
            data.pop();
        }
        match decode_frame(&data) {
            Ok((out, wedge_id, command_id, payload)) => Ok(
                CommandPacket { out, wedge_id, command_id, data: payload },
            ),
            Err(f) => Err(failure_text(f)),
        }
    }
}

/// What the bridge answers the game.
pub enum Reply {
    /// Nothing.
    Silent,
    /// These bytes.
    Bytes(Vec<u8>),
    /// The version packet made of the versions that the unit boards give in
    /// answer to the commands sent to them.
    UnitVersions,
}

/// What the bridge answers the game.
pub enum ReplyView {
    Silent,
    Bytes(Seq<u8>),
    UnitVersions,
}

impl View for Reply {
    type V = ReplyView;

    open spec fn view(&self) -> ReplyView {
        match self {
            Reply::Silent => ReplyView::Silent,
            Reply::Bytes(b) => ReplyView::Bytes(b@),
            Reply::UnitVersions => ReplyView::UnitVersions,
        }
    }
}

/// What the bridge does on a message of the game: the new value of the flag
/// that turns the touch scan on, if it changes it; the commands that it sends
/// to the unit boards, in order; and its answer.
pub struct GameAction {
    pub scan_active: Option<bool>,
    pub unit_commands: Vec<CommandPacket>,
    pub reply: Reply,
}

pub struct GameActionView {
    pub scan_active: Option<bool>,
    pub unit_commands: Seq<PacketView>,
    pub reply: ReplyView,
}

impl View for GameAction {
    type V = GameActionView;

    open spec fn view(&self) -> GameActionView {
        GameActionView {
            scan_active: self.scan_active,
            unit_commands: self.unit_commands@.map_values(|p: CommandPacket| p@),
            reply: self.reply@,
        }
    }
}

/// The same command to each of the unit boards 1 to 6, in order.
pub open spec fn wedge_requests(command_id: u8, data: Seq<u8>) -> Seq<PacketView> {
    Seq::new(6, |k: int| PacketView { out: true, wedge_id: (k + 1) as u8, command_id, data })
}

/// The parameter line that the selector byte of a parameter request names:
/// `0x30`, `0x31` and `0x33` name the three lines, any other byte none.
pub open spec fn param_line(params: SyncBoardParams, selector: u8) -> Seq<char> {
    if selector == 0x30 {
        params.param0000@
    } else if selector == 0x31 {
        params.param0016@
    } else if selector == 0x33 {
        params.param0032@
    } else {
        Seq::empty()
    }
}

/// What the bridge does on the message `buffer` of the game, by its first
/// byte.
pub open spec fn game_action(buffer: Seq<u8>, params: SyncBoardParams) -> GameActionView {
    let b = buffer[0];
    if b == 0xa0 {
        GameActionView {
            scan_active: Some(false),
            unit_commands: Seq::empty(),
            reply: ReplyView::Bytes(
                seq![0xa0u8] + encode_utf8(params.sync_board_version@) + seq![44u8],
            ),
        }
    } else if b == 0x20 || b == 0x9a {
        GameActionView {
            scan_active: Some(false),
            unit_commands: Seq::empty(),
            reply: ReplyView::Silent,
        }
    } else if b == 0xa2 {
        GameActionView {
            scan_active: Some(false),
            unit_commands: wedge_requests(0xA0, Seq::empty()),
            reply: ReplyView::Bytes(seq![162u8, 63, 29, 0, 0, 0, 0]),
        }
    } else if b == 0x94 {
        GameActionView {
            scan_active: Some(false),
            unit_commands: wedge_requests(0x94, Seq::empty()),
            reply: ReplyView::Bytes(seq![148u8, 0, 20, 0, 0, 0, 0]),
        }
    } else if b == 0xc9 {
        GameActionView {
            scan_active: Some(true),
            unit_commands: wedge_requests(0x90, seq![0x14u8, 0x07, 0x7F, 0x3F, 0x44]),
            reply: ReplyView::Bytes(seq![201u8, 0, 73, 0, 0, 0, 0]),
        }
    } else if b == 0xa8 {
        GameActionView {
            scan_active: None,
            unit_commands: wedge_requests(0xA0, Seq::empty()),
            reply: ReplyView::UnitVersions,
        }
    } else if b == 0x72 {
        GameActionView {
            scan_active: Some(false),
            unit_commands: Seq::empty(),
            reply: ReplyView::Bytes(param_reply(param_line(params, buffer[3]))),
        }
    } else {
        GameActionView { scan_active: None, unit_commands: Seq::empty(), reply: ReplyView::Silent }
    }
}

/// The same command to each of the unit boards 1 to 6.
fn wedge_commands(command_id: u8, data: &Vec<u8>) -> (v: Vec<CommandPacket>)
    ensures
        v@.map_values(|p: CommandPacket| p@) == wedge_requests(command_id, data@),
{
    let mut v: Vec<CommandPacket> = Vec::new();
    let mut i: u8 = 1;
    while i < 7
        invariant
            1 <= i <= 7,
            v@.len() == i - 1,
            forall|k: int|
                0 <= k < v@.len() ==> #[trigger] v@[k]@ == wedge_requests(command_id, data@)[k],
        decreases 7 - i,
    {
        let d = data.clone();
        assert(d@ =~= data@);
        v.push(CommandPacket { out: true, wedge_id: i, command_id, data: d });
        i = i + 1;
    }
    assert(v@.map_values(|p: CommandPacket| p@) =~= wedge_requests(command_id, data@));
    v
}

/// No command to the unit boards.
fn no_commands() -> (v: Vec<CommandPacket>)
    ensures
        v@.map_values(|p: CommandPacket| p@) == Seq::<PacketView>::empty(),
{
    let v: Vec<CommandPacket> = Vec::new();
    assert(v@.map_values(|p: CommandPacket| p@) =~= Seq::<PacketView>::empty());
    v
}

/// Decides what to do on the message `buffer` of the game (see
/// `game_action`).
pub fn handle_message(buffer: &Vec<u8>, params: &SyncBoardParams) -> (a: GameAction)
    requires
        buffer@.len() > 0,
        buffer@[0] == 0x72 ==> buffer@.len() >= 4,
    ensures
        a@ == game_action(buffer@, *params),
{
    let b = buffer[0];
    if b == 0xa0 {
        let mut r: Vec<u8> = vec![0xa0];
        append_bytes(&mut r, params.sync_board_version.as_bytes());
        r.push(44);
        assert(r@ =~= seq![0xa0u8] + encode_utf8(params.sync_board_version@) + seq![44u8]);
        GameAction { scan_active: Some(false), unit_commands: no_commands(), reply: Reply::Bytes(r) }
    } else if b == 0x77 {
        GameAction { scan_active: None, unit_commands: no_commands(), reply: Reply::Silent }
    } else if b == 0x20 || b == 0x9a {
        GameAction { scan_active: Some(false), unit_commands: no_commands(), reply: Reply::Silent }
    } else if b == 0xa2 {
        GameAction {
            scan_active: Some(false),
            unit_commands: wedge_commands(0xA0, &Vec::new()),
            reply: Reply::Bytes(vec![162, 63, 29, 0, 0, 0, 0]),
        }
    } else if b == 0x94 {
        GameAction {
            scan_active: Some(false),
            unit_commands: wedge_commands(0x94, &Vec::new()),
            reply: Reply::Bytes(vec![148, 0, 20, 0, 0, 0, 0]),
        }
    } else if b == 0xc9 {
        GameAction {
            scan_active: Some(true),
            unit_commands: wedge_commands(0x90, &vec![0x14, 0x07, 0x7F, 0x3F, 0x44]),
            reply: Reply::Bytes(vec![201, 0, 73, 0, 0, 0, 0]),
        }
    } else if b == 0xa8 {
        GameAction {
            scan_active: None,
            unit_commands: wedge_commands(0xA0, &Vec::new()),
            reply: Reply::UnitVersions,
        }
    } else if b == 0x72 {
        let selector = buffer[3];
        let line: &str = if selector == 0x30 {
            params.param0000
        } else if selector == 0x31 {
            params.param0016
        } else if selector == 0x33 {
            params.param0032
        } else {
            ""
        };
        proof {
            reveal_strlit("");
            assert(""@ =~= Seq::<char>::empty());
        }
        GameAction {
            scan_active: Some(false),
            unit_commands: no_commands(),
            reply: Reply::Bytes(param_answer(line)),
        }
    } else {
        GameAction { scan_active: None, unit_commands: no_commands(), reply: Reply::Silent }
    }
}

/// The version packet answered to the game, made of the unit board versions
/// in the order of the boards.
pub fn unit_versions_reply(params: &SyncBoardParams, versions: Vec<String>) -> (r: Vec<u8>)
    ensures
        r@ == version_packet(
            encode_utf8(params.sync_board_version@),
            params.side,
            string_bytes(versions@),
        ),
{
    let packet = UnitBoardVersionPacket {
        sync_board_version: params.sync_board_version.to_string(),
        unit_board_version: versions,
        side: params.side,
    };
    packet.serialize()
}

/// A packet to or from unit board 1 to 6 reads back from its own bytes.
pub proof fn lemma_wacca_parse_encoded(p: PacketView)
    requires
        1 <= p.wedge_id <= 6,
    ensures
        wacca_parsed(frame_bytes(p)) == Ok::<PacketView, ParseFailure>(p),
{
    crate::frame::lemma_decode_encoded(p);
}

/// The commands sent to the unit boards: for `0xa2` and `0xa8` the version
/// request `0xA0`, for `0x94` the threshold command `0x94`, both without
/// data, and for `0xc9` the initialize command `0x90` with the data
/// `14 07 7F 3F 44`; each goes to boards 1 to 6 in order; the touch scan
/// starts on `0xc9` and stops on `0xa2` and `0x94`.
pub proof fn lemma_unit_commands(buffer: Seq<u8>, params: SyncBoardParams)
    requires
        buffer.len() >= 1,
        buffer[0] == 0xa2 || buffer[0] == 0xa8 || buffer[0] == 0x94 || buffer[0] == 0xc9,
    ensures
        game_action(buffer, params).unit_commands.len() == 6,
        forall|k: int|
            0 <= k < 6 ==> {
                let c = #[trigger] game_action(buffer, params).unit_commands[k];
                &&& c.out
                &&& c.wedge_id == k + 1
                &&& c.command_id == if buffer[0] == 0x94 {
                    0x94u8
                } else if buffer[0] == 0xc9 {
                    0x90u8
                } else {
                    0xA0u8
                }
                &&& c.data == if buffer[0] == 0xc9 {
                    seq![0x14u8, 0x07, 0x7F, 0x3F, 0x44]
                } else {
                    Seq::<u8>::empty()
                }
            },
        buffer[0] == 0xc9 ==> game_action(buffer, params).scan_active == Some(true),
        buffer[0] == 0xa2 || buffer[0] == 0x94 ==> game_action(buffer, params).scan_active == Some(
            false,
        ),
        buffer[0] == 0xa8 ==> game_action(buffer, params).scan_active is None
            && game_action(buffer, params).reply == ReplyView::UnitVersions,
{
}

/// The answer to a parameter request: for the selector `0x30` the bytes of
/// `param0000` followed by their checksum, for `0x31` those of `param0016`,
/// for `0x33` those of `param0032`, and for any other selector only the
/// checksum `0` of no bytes; the touch scan stops and no unit board is
/// asked anything.
pub proof fn lemma_param_request(buffer: Seq<u8>, params: SyncBoardParams)
    requires
        buffer.len() >= 4,
        buffer[0] == 0x72,
    ensures
        game_action(buffer, params).scan_active == Some(false),
        game_action(buffer, params).unit_commands.len() == 0,
        buffer[3] == 0x30 ==> game_action(buffer, params).reply == ReplyView::Bytes(
            encode_utf8(params.param0000@).push(xor_all(encode_utf8(params.param0000@))),
        ),
        buffer[3] == 0x31 ==> game_action(buffer, params).reply == ReplyView::Bytes(
            encode_utf8(params.param0016@).push(xor_all(encode_utf8(params.param0016@))),
        ),
        buffer[3] == 0x33 ==> game_action(buffer, params).reply == ReplyView::Bytes(
            encode_utf8(params.param0032@).push(xor_all(encode_utf8(params.param0032@))),
        ),
        buffer[3] != 0x30 && buffer[3] != 0x31 && buffer[3] != 0x33 ==> game_action(
            buffer,
            params,
        ).reply == ReplyView::Bytes(seq![0u8]),
{
    let e = encode_utf8(Seq::<char>::empty());
    assert(e =~= Seq::<u8>::empty());
    assert(e.push(xor_all(e)) =~= seq![0u8]);
}

/// The version packet of `UnitBoardVersionPacket::serialize`: when the unit
/// board versions all have `l` bytes, unit board `k`'s bytes are those of
/// `unit_board_version[k]`, in order, after the side letter.
pub proof fn lemma_string_version_units(sync: Seq<u8>, side: bool, v: Seq<String>, l: int)
    requires
        l >= 0,
        forall|k: int| 0 <= k < v.len() ==> encode_utf8((#[trigger] v[k])@).len() == l,
    ensures
        forall|k: int|
            0 <= k < v.len() ==> version_packet(sync, side, string_bytes(v)).subrange(
                2 + sync.len() as int + l * k,
                2 + sync.len() as int + l * k + l,
            ) == encode_utf8((#[trigger] v[k])@),
{
    let units = string_bytes(v);
    assert forall|k: int| 0 <= k < units.len() implies (#[trigger] units[k]).len() == l by {
        assert(units[k] == encode_utf8(v[k]@));
    }
    crate::game::lemma_version_packet_units(sync, side, units, l);
    assert forall|k: int| 0 <= k < v.len() implies version_packet(sync, side, units).subrange(
        2 + sync.len() as int + l * k,
        2 + sync.len() as int + l * k + l,
    ) == encode_utf8((#[trigger] v[k])@) by {
        assert(units[k] == encode_utf8(v[k]@));
    }
}

/// Writing out a packet read from a frame that ends with the end byte and
/// carries the plain checksum of its body gives that frame back.
pub proof fn lemma_wacca_encode_parsed(d: Seq<u8>)
    requires
        d.len() >= 4,
        d.last() == crate::frame::END_BYTE,
        d[d.len() - 2] == xor_all(d.take(d.len() - 2)),
        wacca_parsed(d) is Ok,
    ensures
        frame_bytes(wacca_parsed(d)->Ok_0) == d,
{
    crate::frame::lemma_encode_decoded(d);
}

/// The XOR checksum of all of `data`.
pub fn calc_checksum(data: &Vec<u8>) -> (c: u8)
    ensures
        c == xor_all(data@),
{
    crate::utils::calc_checksum(data)
}

/// Maps a byte of touch data from a unit board to the layout of the game.
pub fn fix_touch(byte: u8, side: bool) -> (r: u8)
    ensures
        r == crate::game::touch_bits(byte, side),
{
    crate::game::fix_touch(byte, side)
}

} // verus!
