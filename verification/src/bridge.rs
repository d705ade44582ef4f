//! The decisions of the bridge loop: the answer to each message of the game,
//! whether the touch scan runs, and the touch frame sent to the game.
use vstd::prelude::*;
use vstd::utf8::encode_utf8;

use crate::game::{
    fix_touch, param_answer, param_reply, touch_bits, version_packet, SyncBoardParams,
    UnitBoardVersionPacket,
};
use crate::utils::{calc_checksum, copied_into, copy_into, xor_all};

verus! {

/// The board version that the bridge reports for the sync board and for
/// each unit board.
pub open spec fn board_version() -> Seq<u8> {
    encode_utf8("190523"@)
}

/// The parameter line that the selector byte of a parameter request names:
/// `0x30`, `0x31` and `0x33` name the three lines, any other byte none.
pub open spec fn param_line(params: SyncBoardParams, selector: u8) -> Seq<char> {
    if selector == 0x30 {
        params.param0000@
    } else if selector == 0x31 {
        params.param0016@
    } else if selector == 0x33 {
        params.param0032@
    } else {
        Seq::empty()
    }
}

/// The answer of the bridge to the message `m` of the game, by its first
/// byte, and whether the touch scan runs afterwards.
pub open spec fn bridge_reply(m: Seq<u8>, active: bool, side: bool, params: SyncBoardParams) -> (
    Option<Seq<u8>>,
    bool,
) {
    let b = m[0];
    if b == 0xa0 {
        (Some(seq![0xa0u8] + board_version() + seq![44u8]), false)
    } else if b == 0x20 || b == 0x9a {
        (None, false)
    } else if b == 0xa2 {
        (Some(seq![162u8, 63, 29]), false)
    } else if b == 0x94 {
        (Some(seq![148u8, 0, 20]), false)
    } else if b == 0xc9 {
        (Some(seq![201u8, 0, 73]), true)
    } else if b == 0xa8 {
        (
            Some(
                version_packet(
                    board_version(),
                    side,
                    Seq::new(6, |i: int| board_version()),
                ),
            ),
            active,
        )
    } else if b == 0x72 {
        (Some(param_reply(param_line(params, m[3]))), false)
    } else {
        (None, active)
    }
}

/// Answers the message `m` of the game (see `bridge_reply`): the bytes to
/// send back, if any, and whether the touch scan runs afterwards.
pub fn game_reply(m: &Vec<u8>, active: bool, side: bool, params: &SyncBoardParams) -> (r: (
    Option<Vec<u8>>,
    bool,
))
    requires
        m@.len() > 0,
        m@[0] == 0x72 ==> m@.len() >= 4,
    ensures
        (match r.0 {
            Some(v) => Some(v@),
            None => None,
        }, r.1) == bridge_reply(m@, active, side, *params),
{
    let b = m[0];
    if b == 0xa0 {
        let mut r: Vec<u8> = vec![0xa0];
        crate::utils::append_bytes(&mut r, "190523".as_bytes());
        r.push(44);
        assert(r@ =~= seq![0xa0u8] + board_version() + seq![44u8]);
        (Some(r), false)
    } else if b == 0x77 {
        (None, active)
    } else if b == 0x20 || b == 0x9a {
        (None, false)
    } else if b == 0xa2 {
        let r: Vec<u8> = vec![162, 63, 29];
        assert(r@ =~= seq![162u8, 63, 29]);
        (Some(r), false)
    } else if b == 0x94 {
        let r: Vec<u8> = vec![148, 0, 20];
        assert(r@ =~= seq![148u8, 0, 20]);
        (Some(r), false)
    } else if b == 0xc9 {
        let r: Vec<u8> = vec![201, 0, 73];
        assert(r@ =~= seq![201u8, 0, 73]);
        (Some(r), true)
    } else if b == 0xa8 {
        let versions: Vec<&str> = vec!["190523", "190523", "190523", "190523", "190523", "190523"];
        let packet = UnitBoardVersionPacket {
            sync_board_version: "190523",
            unit_board_version: versions,
            side: side,
        };
        let r = packet.serialize();
        assert(crate::game::str_bytes(packet.unit_board_version@) =~= Seq::new(
            6,
            |i: int| board_version(),
        ));
        (Some(r), active)
    } else if b == 0x72 {
        let selector = m[3];
        let line: &str = if selector == 0x30 {
            params.param0000
        } else if selector == 0x31 {
            params.param0016
        } else if selector == 0x33 {
            params.param0032
        } else {
            ""
        };
        proof {
            reveal_strlit("");
            assert(""@ =~= Seq::<char>::empty());
        }
        (Some(param_answer(line)), false)
    } else {
        (None, active)
    }
}

/// The number of bytes of a touch frame.
pub const FRAME_LEN: usize = 36;

/// The frame after the touch bytes of one unit board are merged in: board
/// `id` fills column `7 - id` of the four sensor rows, six bytes apart.
pub open spec fn merged_touch(f: Seq<u8>, t: (u8, Vec<u8>), side: bool) -> Seq<u8> {
    let r = 7 - t.0;
    let f1 = f.update(r, f[r] | touch_bits(t.1@[0], side));
    let f2 = f1.update(r + 6, f1[r + 6] | touch_bits(t.1@[1], side));
    let f3 = f2.update(r + 12, f2[r + 12] | touch_bits(t.1@[2], side));
    f3.update(r + 18, f3[r + 18] | touch_bits(t.1@[3], side))
}

/// The frame after the touch bytes of each board are merged in, in order.
pub open spec fn merged_touches(f: Seq<u8>, touches: Seq<(u8, Vec<u8>)>, side: bool) -> Seq<u8>
    decreases touches.len(),
{
    if touches.len() == 0 {
        f
    } else {
        merged_touch(merged_touches(f, touches.drop_last(), side), touches.last(), side)
    }
}

/// The touch frame sent to the game: the touch bits of the boards in bytes
/// 1 to 24 (cleared before), `129` in byte 0, the frame counter in byte 34
/// and in byte 35 the checksum of the frame taken with `128` there; the
/// counter wraps from 127 to 0 after the checksum is taken.
pub open spec fn touch_frame(old: Seq<u8>, touches: Seq<(u8, Vec<u8>)>, side: bool) -> Seq<u8> {
    let cleared = copied_into(old, 1, Seq::new(24, |i: int| 0u8));
    let t = merged_touches(cleared, touches, side);
    let counted = t.update(0, 129).update(34, (t[34] + 1) as u8).update(35, 128);
    let summed = counted.update(35, xor_all(counted));
    if summed[34] == 127 {
        summed.update(34, 0)
    } else {
        summed
    }
}

/// What each board's touch entry needs: an id up to 7 and four bytes.
pub open spec fn touch_entry_ok(t: (u8, Vec<u8>)) -> bool {
    t.0 <= 7 && t.1@.len() >= 4
}

/// Merges the touch bytes of one board into the frame.
fn merge_touch(frame: &mut Vec<u8>, t: &(u8, Vec<u8>), side: bool)
    requires
        old(frame)@.len() == FRAME_LEN,
        touch_entry_ok(*t),
    ensures
        final(frame)@ == merged_touch(old(frame)@, *t, side),
{
    let r: usize = (7 - t.0) as usize;
    let v0 = frame[r] | fix_touch(t.1[0], side);
    frame.set(r, v0);
    let v1 = frame[r + 6] | fix_touch(t.1[1], side);
    frame.set(r + 6, v1);
    let v2 = frame[r + 12] | fix_touch(t.1[2], side);
    frame.set(r + 12, v2);
    let v3 = frame[r + 18] | fix_touch(t.1[3], side);
    frame.set(r + 18, v3);
}

/// Builds the next touch frame in `touchbuffer` from the touch bytes that the
/// unit boards gave (see `touch_frame`).
pub fn fill_touch_frame(touchbuffer: &mut Vec<u8>, touches: &Vec<(u8, Vec<u8>)>, side: bool)
    requires
        old(touchbuffer)@.len() == FRAME_LEN,
        old(touchbuffer)@[34] < 255,
        forall|k: int| 0 <= k < touches@.len() ==> touch_entry_ok(#[trigger] touches@[k]),
    ensures
        final(touchbuffer)@ == touch_frame(old(touchbuffer)@, touches@, side),
{
    let zeros: [u8; 24] = [0; 24];
    assert(zeros@ =~= Seq::new(24, |i: int| 0u8));
    copy_into(touchbuffer, 1, &zeros);
    let ghost cleared = touchbuffer@;
    assert(cleared =~= copied_into(old(touchbuffer)@, 1, Seq::new(24, |i: int| 0u8)));
    let mut i: usize = 0;
    while i < touches.len()
        invariant
            i <= touches@.len(),
            forall|k: int| 0 <= k < touches@.len() ==> touch_entry_ok(#[trigger] touches@[k]),
            touchbuffer@.len() == FRAME_LEN,
            touchbuffer@ == merged_touches(cleared, touches@.take(i as int), side),
            touchbuffer@[34] == old(touchbuffer)@[34],
        decreases touches@.len() - i,
    {
        assert(touches@.take(i + 1).drop_last() =~= touches@.take(i as int));
        assert(touch_entry_ok(touches@[i as int]));
        merge_touch(touchbuffer, &touches[i], side);
        i = i + 1;
    }
    assert(touches@.take(i as int) =~= touches@);
    touchbuffer.set(0, 129);
    let count = touchbuffer[34] + 1;
    touchbuffer.set(34, count);
    touchbuffer.set(35, 128);
    let c = calc_checksum(touchbuffer);
    touchbuffer.set(35, c);
    if touchbuffer[34] == 127 {
        touchbuffer.set(34, 0);
    }
}

/// The checksum of a sequence in which one byte is replaced.
proof fn lemma_xor_all_update(s: Seq<u8>, i: int, v: u8)
    requires
        0 <= i < s.len(),
    ensures
        xor_all(s.update(i, v)) == xor_all(s) ^ s[i] ^ v,
    decreases s.len(),
{
    let t = s.update(i, v);
    if i == s.len() - 1 {
        assert(t.drop_last() =~= s.drop_last());
        let x = xor_all(s.drop_last());
        let a = s[i];
        assert(x ^ v == ((x ^ a) ^ a) ^ v) by (bit_vector);
    } else {
        lemma_xor_all_update(s.drop_last(), i, v);
        assert(t.drop_last() =~= s.drop_last().update(i, v));
        let x = xor_all(s.drop_last());
        let a = s[i];
        let l = s.last();
        assert(((x ^ a) ^ v) ^ l == ((x ^ l) ^ a) ^ v) by (bit_vector);
    }
}

/// A touch frame whose counter did not wrap has the checksum `128` over all
/// of its bytes: its last byte makes the checksum of the others `128`.
pub proof fn lemma_touch_frame_checksum(old: Seq<u8>, touches: Seq<(u8, Vec<u8>)>, side: bool)
    requires
        old.len() == FRAME_LEN,
        forall|k: int| 0 <= k < touches.len() ==> touch_entry_ok(#[trigger] touches[k]),
        touch_frame(old, touches, side)[34] != 0,
    ensures
        xor_all(touch_frame(old, touches, side)) == 128,
{
    let cleared = copied_into(old, 1, Seq::new(24, |i: int| 0u8));
    lemma_merged_touches_len(cleared, touches, side);
    let t = merged_touches(cleared, touches, side);
    let counted = t.update(0, 129).update(34, (t[34] + 1) as u8).update(35, 128);
    let x = xor_all(counted);
    lemma_xor_all_update(counted, 35, x);
    assert(x ^ 128u8 ^ x == 128u8) by (bit_vector);
}

/// Merging touch bytes keeps the length of the frame.
proof fn lemma_merged_touches_len(f: Seq<u8>, touches: Seq<(u8, Vec<u8>)>, side: bool)
    requires
        f.len() == FRAME_LEN,
        forall|k: int| 0 <= k < touches.len() ==> touch_entry_ok(#[trigger] touches[k]),
    ensures
        merged_touches(f, touches, side).len() == FRAME_LEN,
    decreases touches.len(),
{
    if touches.len() > 0 {
        lemma_merged_touches_len(f, touches.drop_last(), side);
        assert(touch_entry_ok(touches[touches.len() - 1]));
    }
}

/// A touch frame starts with `129`, and its counter goes up by one from
/// the counter of the frame before, but for 127, which becomes 0.
pub proof fn lemma_touch_frame_counter(old: Seq<u8>, touches: Seq<(u8, Vec<u8>)>, side: bool)
    requires
        old.len() == FRAME_LEN,
        old[34] < 255,
        forall|k: int| 0 <= k < touches.len() ==> touch_entry_ok(#[trigger] touches[k]),
    ensures
        touch_frame(old, touches, side).len() == FRAME_LEN,
        touch_frame(old, touches, side)[0] == 129,
        touch_frame(old, touches, side)[34] == if old[34] + 1 == 127 {
            0
        } else {
            old[34] + 1
        },
{
    let cleared = copied_into(old, 1, Seq::new(24, |i: int| 0u8));
    lemma_merged_touches_len(cleared, touches, side);
    lemma_merged_touches_frame_tail(cleared, touches, side);
    assert(cleared[34] == old[34]);
    assert(merged_touches(cleared, touches, side)[34] == old[34]);
}

/// Whether the touch scan runs after a message: the messages `0xa0`,
/// `0x20`, `0xa2`, `0x94`, `0x72` and `0x9a` stop it, `0xc9` starts it, and
/// every other message leaves it as it was.
pub proof fn lemma_scan_flag(m: Seq<u8>, active: bool, side: bool, params: SyncBoardParams)
    requires
        m.len() > 0,
    ensures
        bridge_reply(m, active, side, params).1 == if m[0] == 0xa0 || m[0] == 0x20 || m[0] == 0xa2
            || m[0] == 0x94 || m[0] == 0xc9 || m[0] == 0x72 || m[0] == 0x9a {
            m[0] == 0xc9
        } else {
            active
        },
{
}

/// The answer to a version request: `0xA8`, the bridge's version, the side
/// letter of `side` (`L`, `0x4C`, on the left side, `R`, `0x52`, on the
/// right), the same version for each of the six unit boards and a checksum;
/// the touch scan is left as it was.
pub proof fn lemma_version_reply(m: Seq<u8>, active: bool, side: bool, params: SyncBoardParams)
    requires
        m.len() > 0,
        m[0] == 0xa8,
    ensures
        bridge_reply(m, active, side, params).1 == active,
        bridge_reply(m, active, side, params).0 is Some,
        ({
            let v = bridge_reply(m, active, side, params).0->Some_0;
            let n = board_version().len() as int;
            &&& v.len() == 3 + 7 * n
            &&& v[0] == 0xA8
            &&& v.subrange(1, 1 + n) == board_version()
            &&& v[1 + n] == if side {
                0x4Cu8
            } else {
                0x52u8
            }
            &&& forall|k: int|
                0 <= k < 6 ==> #[trigger] v.subrange(2 + n + n * k, 2 + n + n * k + n)
                    == board_version()
        }),
{
    let n = board_version().len() as int;
    let units = Seq::new(6, |i: int| board_version());
    crate::game::lemma_version_packet_head(board_version(), side, units);
    crate::game::lemma_version_packet_units(board_version(), side, units, n);
    assert(n * 6 == 6 * n) by (nonlinear_arith);
    let v = bridge_reply(m, active, side, params).0->Some_0;
    assert forall|k: int| 0 <= k < 6 implies #[trigger] v.subrange(
        2 + n + n * k,
        2 + n + n * k + n,
    ) == board_version() by {
        assert(units[k] == board_version());
    }
}

/// The answer to a parameter request: for the selector `0x30` the bytes of
/// `param0000` followed by their checksum, for `0x31` those of `param0016`,
/// for `0x33` those of `param0032`, and for any other selector only the
/// checksum `0` of no bytes; the touch scan stops.
pub proof fn lemma_param_request(m: Seq<u8>, active: bool, side: bool, params: SyncBoardParams)
    requires
        m.len() >= 4,
        m[0] == 0x72,
    ensures
        bridge_reply(m, active, side, params).1 == false,
        m[3] == 0x30 ==> bridge_reply(m, active, side, params).0 == Some(
            encode_utf8(params.param0000@).push(xor_all(encode_utf8(params.param0000@))),
        ),
        m[3] == 0x31 ==> bridge_reply(m, active, side, params).0 == Some(
            encode_utf8(params.param0016@).push(xor_all(encode_utf8(params.param0016@))),
        ),
        m[3] == 0x33 ==> bridge_reply(m, active, side, params).0 == Some(
            encode_utf8(params.param0032@).push(xor_all(encode_utf8(params.param0032@))),
        ),
        m[3] != 0x30 && m[3] != 0x31 && m[3] != 0x33 ==> bridge_reply(m, active, side, params).0
            == Some(seq![0u8]),
{
    let e = encode_utf8(Seq::<char>::empty());
    assert(e =~= Seq::<u8>::empty());
    assert(e.push(xor_all(e)) =~= seq![0u8]);
}

/// The OR of the touch bits of row `row` over the entries of board `id`, in
/// order.
pub open spec fn column_bits(touches: Seq<(u8, Vec<u8>)>, id: u8, row: int, side: bool) -> u8
    decreases touches.len(),
{
    if touches.len() == 0 {
        0
    } else {
        let prev = column_bits(touches.drop_last(), id, row, side);
        if touches.last().0 == id {
            prev | touch_bits(touches.last().1@[row], side)
        } else {
            prev
        }
    }
}

proof fn lemma_merged_column(
    f: Seq<u8>,
    touches: Seq<(u8, Vec<u8>)>,
    side: bool,
    id: u8,
    row: int,
)
    requires
        f.len() == FRAME_LEN,
        1 <= id <= 6,
        0 <= row < 4,
        f[(7 - id) + 6 * row] == 0,
        forall|k: int|
            0 <= k < touches.len() ==> touch_entry_ok(#[trigger] touches[k]) && 1 <= touches[k].0
                <= 6,
    ensures
        merged_touches(f, touches, side)[(7 - id) + 6 * row] == column_bits(touches, id, row, side),
    decreases touches.len(),
{
    if touches.len() > 0 {
        let q = touches.drop_last();
        assert forall|k: int| 0 <= k < q.len() implies touch_entry_ok(#[trigger] q[k]) && 1
            <= q[k].0 <= 6 by {
            assert(q[k] == touches[k]);
            assert(touch_entry_ok(touches[k]));
        }
        lemma_merged_column(f, q, side, id, row);
        lemma_merged_touches_len(f, q, side);
        let t = touches.last();
        assert(touch_entry_ok(touches[touches.len() - 1]) && 1 <= touches[touches.len() - 1].0
            <= 6);
    }
}

/// The touch frame holds the touches of board `id` (1 to 6) in column
/// `7 - id`: byte `(7 - id) + 6 * row` is the OR of the touch bits of row
/// `row` of that board's entries.
pub proof fn lemma_touch_columns(
    old: Seq<u8>,
    touches: Seq<(u8, Vec<u8>)>,
    side: bool,
    id: u8,
    row: int,
)
    requires
        old.len() == FRAME_LEN,
        1 <= id <= 6,
        0 <= row < 4,
        forall|k: int|
            0 <= k < touches.len() ==> touch_entry_ok(#[trigger] touches[k]) && 1 <= touches[k].0
                <= 6,
    ensures
        touch_frame(old, touches, side)[(7 - id) + 6 * row] == column_bits(touches, id, row, side),
{
    let cleared = copied_into(old, 1, Seq::new(24, |i: int| 0u8));
    let p = (7 - id) + 6 * row;
    assert(cleared.len() == FRAME_LEN);
    assert(cleared[p] == 0);
    assert forall|k: int| 0 <= k < touches.len() implies touch_entry_ok(#[trigger] touches[k]) by {
    }
    lemma_merged_touches_len(cleared, touches, side);
    lemma_merged_column(cleared, touches, side, id, row);
}

/// The frame after one touch frame is built per round, from `start`.
pub open spec fn frames_after(
    start: Seq<u8>,
    rounds: Seq<Seq<(u8, Vec<u8>)>>,
    side: bool,
) -> Seq<u8>
    decreases rounds.len(),
{
    if rounds.len() == 0 {
        start
    } else {
        touch_frame(frames_after(start, rounds.drop_last(), side), rounds.last(), side)
    }
}

/// From a frame with counter 0, the `k`-th touch frame has the counter
/// `k % 127`, starts with `129`, and, unless its counter just wrapped to 0,
/// has the checksum `128` over all of its bytes.
pub proof fn lemma_touch_frames(start: Seq<u8>, rounds: Seq<Seq<(u8, Vec<u8>)>>, side: bool)
    requires
        start.len() == FRAME_LEN,
        start[34] == 0,
        forall|r: int, k: int|
            0 <= r < rounds.len() && 0 <= k < rounds[r].len() ==> touch_entry_ok(
                #[trigger] rounds[r][k],
            ),
    ensures
        frames_after(start, rounds, side).len() == FRAME_LEN,
        frames_after(start, rounds, side)[34] == rounds.len() % 127,
        rounds.len() > 0 ==> frames_after(start, rounds, side)[0] == 129,
        rounds.len() % 127 != 0 ==> xor_all(frames_after(start, rounds, side)) == 128,
    decreases rounds.len(),
{
    if rounds.len() > 0 {
        let q = rounds.drop_last();
        assert forall|r: int, k: int|
            0 <= r < q.len() && 0 <= k < q[r].len() implies touch_entry_ok(#[trigger] q[r][k]) by {
            assert(q[r] == rounds[r]);
            assert(touch_entry_ok(rounds[r][k]));
        }
        lemma_touch_frames(start, q, side);
        let prev = frames_after(start, q, side);
        let t = rounds.last();
        assert forall|k: int| 0 <= k < t.len() implies touch_entry_ok(#[trigger] t[k]) by {
            assert(t == rounds[rounds.len() - 1]);
            assert(touch_entry_ok(rounds[rounds.len() - 1][k]));
        }
        lemma_touch_frame_counter(prev, t, side);
        if touch_frame(prev, t, side)[34] != 0 {
            lemma_touch_frame_checksum(prev, t, side);
        }
    }
}

/// Merging touch bytes leaves the bytes from 26 on as they were.
proof fn lemma_merged_touches_frame_tail(f: Seq<u8>, touches: Seq<(u8, Vec<u8>)>, side: bool)
    requires
        f.len() == FRAME_LEN,
        forall|k: int| 0 <= k < touches.len() ==> touch_entry_ok(#[trigger] touches[k]),
    ensures
        forall|j: int| 26 <= j < FRAME_LEN ==> merged_touches(f, touches, side)[j] == f[j],
    decreases touches.len(),
{
    if touches.len() > 0 {
        lemma_merged_touches_frame_tail(f, touches.drop_last(), side);
        lemma_merged_touches_len(f, touches.drop_last(), side);
        assert(touch_entry_ok(touches[touches.len() - 1]));
    }
}

} // verus!
