use wacca_touch::bridge::{fill_touch_frame, game_reply};
use wacca_touch::game::{self, SyncBoardParams, UnitBoardVersionPacket};
use wacca_touch::utils::calc_checksum;
use wacca_touch::wacca::{self, GameAction, Reply};

const P0: &str = "    0    0    1    2    3    4    5   15   15   15   15   15   15   11   11   11";
const P1: &str = "   11   11   11  128  103  103  115  138  127  103  105  111  126  113   95  100";
const P2: &str = "  101  115   98   86   76   67   68   48  117    0   82  154    0    6   35    4";

fn version_bytes(side_letter: u8) -> Vec<u8> {
    let mut s = vec![0xA8];
    s.extend_from_slice(b"190523");
    s.push(side_letter);
    for _ in 0..6 {
        s.extend_from_slice(b"190523");
    }
    s
}

#[test]
fn sync_board_params_lines() {
    let p = SyncBoardParams::get();
    assert_eq!((p.param0000, p.param0016, p.param0032), (P0, P1, P2));
    let q = wacca::SyncBoardParams::get(&true);
    assert_eq!((q.param0000, q.param0016, q.param0032), (P0, P1, P2));
    assert_eq!(q.sync_board_version, "190523");
    assert!(q.side);
    assert!(!wacca::SyncBoardParams::get(&false).side);
}

#[test]
fn fix_touch_values() {
    assert_eq!(game::fix_touch(0x01, true), 16);
    assert_eq!(game::fix_touch(0x1F, true), 31);
    assert_eq!(game::fix_touch(0x10, true), 1);
    assert_eq!(game::fix_touch(0xE0, true), 0);
    assert_eq!(game::fix_touch(0xFF, false), 0x7F);
    assert_eq!(game::fix_touch(0x35, false), 0x35);
    assert_eq!(wacca::fix_touch(0x02, true), 8);
    for b in 0..=255u8 {
        assert!(game::fix_touch(b, true) < 32);
        assert!(game::fix_touch(b, false) < 128);
        assert_eq!(game::fix_touch(b, true), b.reverse_bits() >> 3);
    }
}

#[test]
fn version_packet_checksums() {
    let left = UnitBoardVersionPacket {
        sync_board_version: "190523",
        unit_board_version: vec!["190523"; 6],
        side: true,
    };
    let mut expected = version_bytes(0x4C);
    expected.push(104);
    assert_eq!(left.serialize(), expected);
    let right = wacca::UnitBoardVersionPacket {
        sync_board_version: "190523".to_string(),
        unit_board_version: vec!["190523".to_string(); 6],
        side: false,
    };
    let mut expected = version_bytes(0x52);
    expected.push(118);
    assert_eq!(right.serialize(), expected);
    let mut with_flag = version_bytes(0x52);
    with_flag.push(0x80);
    assert_eq!(calc_checksum(&with_flag), 118);
}

#[test]
fn bridge_replies_to_each_message() {
    let params = SyncBoardParams::get();
    assert_eq!(
        game_reply(&vec![0xa0], true, false, &params),
        (Some(vec![160, 49, 57, 48, 53, 50, 51, 44]), false)
    );
    assert_eq!(game_reply(&vec![0x77], true, false, &params), (None, true));
    assert_eq!(game_reply(&vec![0x20], true, false, &params), (None, false));
    assert_eq!(game_reply(&vec![0xa2], true, false, &params), (Some(vec![162, 63, 29]), false));
    assert_eq!(game_reply(&vec![0x94], true, false, &params), (Some(vec![148, 0, 20]), false));
    assert_eq!(game_reply(&vec![0xc9], false, false, &params), (Some(vec![201, 0, 73]), true));
    assert_eq!(game_reply(&vec![0x9a], true, false, &params), (None, false));
    assert_eq!(game_reply(&vec![0x11], true, false, &params), (None, true));
    assert_eq!(game_reply(&vec![0x11], false, false, &params), (None, false));
    let mut left = version_bytes(0x4C);
    left.push(104);
    assert_eq!(game_reply(&vec![0xa8], false, true, &params), (Some(left), false));
    let mut line = P0.as_bytes().to_vec();
    line.push(0x11);
    assert_eq!(game_reply(&vec![0x72, 0, 0, 0x30], true, false, &params), (Some(line), false));
    let mut line = P1.as_bytes().to_vec();
    line.push(0x0c);
    assert_eq!(game_reply(&vec![0x72, 0, 0, 0x31], true, false, &params), (Some(line), false));
    let mut line = P2.as_bytes().to_vec();
    line.push(0x01);
    assert_eq!(game_reply(&vec![0x72, 0, 0, 0x33], true, false, &params), (Some(line), false));
    assert_eq!(game_reply(&vec![0x72, 0, 0, 0x32], true, false, &params), (Some(vec![0]), false));
}

fn commands_of(a: &GameAction) -> Vec<(bool, u8, u8, Vec<u8>)> {
    a.unit_commands.iter().map(|p| (p.out, p.wedge_id, p.command_id, p.data.clone())).collect()
}

fn bytes_of(a: &GameAction) -> Option<Vec<u8>> {
    match &a.reply {
        Reply::Bytes(b) => Some(b.clone()),
        _ => None,
    }
}

#[test]
fn threaded_bridge_actions() {
    let params = wacca::SyncBoardParams::get(&false);
    let a = wacca::handle_message(&vec![0xa0], &params);
    assert_eq!(a.scan_active, Some(false));
    assert_eq!(bytes_of(&a), Some(vec![160, 49, 57, 48, 53, 50, 51, 44]));
    assert!(a.unit_commands.is_empty());

    let a = wacca::handle_message(&vec![0x77], &params);
    assert_eq!(a.scan_active, None);
    assert!(matches!(a.reply, Reply::Silent));

    for m in [0x20u8, 0x9a] {
        let a = wacca::handle_message(&vec![m], &params);
        assert_eq!(a.scan_active, Some(false));
        assert!(matches!(a.reply, Reply::Silent));
        assert!(a.unit_commands.is_empty());
    }

    let a = wacca::handle_message(&vec![0xa2], &params);
    assert_eq!(a.scan_active, Some(false));
    assert_eq!(bytes_of(&a), Some(vec![162, 63, 29, 0, 0, 0, 0]));
    let expected: Vec<_> = (1u8..7).map(|i| (true, i, 0xA0, vec![])).collect();
    assert_eq!(commands_of(&a), expected);

    let a = wacca::handle_message(&vec![0x94], &params);
    assert_eq!(bytes_of(&a), Some(vec![148, 0, 20, 0, 0, 0, 0]));
    let expected: Vec<_> = (1u8..7).map(|i| (true, i, 0x94, vec![])).collect();
    assert_eq!(commands_of(&a), expected);

    let a = wacca::handle_message(&vec![0xc9], &params);
    assert_eq!(a.scan_active, Some(true));
    assert_eq!(bytes_of(&a), Some(vec![201, 0, 73, 0, 0, 0, 0]));
    let expected: Vec<_> =
        (1u8..7).map(|i| (true, i, 0x90, vec![0x14, 0x07, 0x7F, 0x3F, 0x44])).collect();
    assert_eq!(commands_of(&a), expected);

    let a = wacca::handle_message(&vec![0xa8], &params);
    assert_eq!(a.scan_active, None);
    assert!(matches!(a.reply, Reply::UnitVersions));
    let expected: Vec<_> = (1u8..7).map(|i| (true, i, 0xA0, vec![])).collect();
    assert_eq!(commands_of(&a), expected);

    let a = wacca::handle_message(&vec![0x72, 1, 2, 0x33], &params);
    assert_eq!(a.scan_active, Some(false));
    let mut line = P2.as_bytes().to_vec();
    line.push(0x01);
    assert_eq!(bytes_of(&a), Some(line));

    let a = wacca::handle_message(&vec![0x05, 1], &params);
    assert_eq!(a.scan_active, None);
    assert!(matches!(a.reply, Reply::Silent));
}

#[test]
fn versions_reply_of_unit_answers() {
    let params = wacca::SyncBoardParams::get(&false);
    let r = wacca::unit_versions_reply(&params, vec!["190523".to_string(); 6]);
    let mut expected = version_bytes(0x52);
    expected.push(118);
    assert_eq!(r, expected);
}

#[test]
fn touch_frame_from_unit_answers() {
    let mut frame = vec![0u8; 36];
    let touches = vec![(1u8, vec![0x01, 0x02, 0x04, 0x08]), (6u8, vec![0xFF, 0, 0, 0x10])];
    fill_touch_frame(&mut frame, &touches, true);
    assert_eq!(
        frame,
        vec![
            129, 31, 0, 0, 0, 0, 16, 0, 0, 0, 0, 0, 8, 0, 0, 0, 0, 0, 4, 1, 0, 0, 0, 0, 2, 0, 0, 0,
            0, 0, 0, 0, 0, 0, 1, 0,
        ]
    );
    assert_eq!(calc_checksum(&frame), 128);
}

#[test]
fn touch_frame_clears_old_touches_and_counts() {
    let mut frame = vec![0u8; 36];
    fill_touch_frame(&mut frame, &vec![(3u8, vec![0x7F, 0x7F, 0x7F, 0x7F])], false);
    assert_eq!(frame[4], 0x7F);
    fill_touch_frame(&mut frame, &vec![], false);
    assert!(frame[1..25].iter().all(|&b| b == 0));
    assert_eq!(frame[0], 129);
    assert_eq!(frame[34], 2);
    assert_eq!(calc_checksum(&frame), 128);
}

#[test]
fn touch_frame_counter_wraps() {
    let mut frame = vec![0u8; 36];
    frame[34] = 126;
    fill_touch_frame(&mut frame, &vec![], true);
    assert_eq!(frame[34], 0);
    // the checksum was taken before the counter wrapped
    let mut with_127 = frame.clone();
    with_127[34] = 127;
    assert_eq!(calc_checksum(&with_127), 128);
    fill_touch_frame(&mut frame, &vec![], true);
    assert_eq!(frame[34], 1);
    assert_eq!(calc_checksum(&frame), 128);
}

#[test]
fn touch_frames_count_modulo_127() {
    let mut frame = vec![0u8; 36];
    for k in 1..=300u32 {
        fill_touch_frame(&mut frame, &vec![(2u8, vec![1, 2, 3, 4])], k % 2 == 0);
        assert_eq!(frame.len(), 36);
        assert_eq!(frame[0], 129);
        assert_eq!(frame[34] as u32, k % 127);
        if k % 127 != 0 {
            assert_eq!(calc_checksum(&frame), 128);
        }
    }
}

#[test]
fn scan_flag_after_messages() {
    let params = SyncBoardParams::get();
    for b in 0..=255u8 {
        let m = vec![b, 0, 0, 0x30];
        for active in [false, true] {
            let (_, after) = game_reply(&m, active, true, &params);
            let stops_or_starts =
                [0xa0u8, 0x20, 0xa2, 0x94, 0xc9, 0x72, 0x9a].contains(&b);
            let expected = if stops_or_starts { b == 0xc9 } else { active };
            assert_eq!(after, expected);
        }
    }
}
