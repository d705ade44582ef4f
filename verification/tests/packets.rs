use wacca_touch::frame::{failure_text, ParseFailure};
use wacca_touch::unit;
use wacca_touch::utils::{calc_checksum, copy_into, version_prefix};
use wacca_touch::wacca;

const VERSION_ANSWER: [u8; 15] = [
    0xD1, 0xA8, 0x31, 0x39, 0x30, 0x35, 0x31, 0x34, 0x30, 0x37, 0x33, 0x34, 0x30, 0x41, 0xF0,
];

const TOUCH_ANSWER: [u8; 16] = [
    0xD1, 0xA1, 0x80, 0x00, 0x00, 0x00, 0x04, 0x00, 0x00, 0x00, 0x00, 0x00, 0x00, 0x01, 0x75, 0xF0,
];

#[test]
fn checksum_of_documented_commands() {
    assert_eq!(calc_checksum(&vec![0xE1, 0xA8]), 0x49);
    assert_eq!(calc_checksum(&vec![0xE1, 0x94, 0x11, 0x0C]), 0x68);
    assert_eq!(calc_checksum(&vec![0xE1, 0xA1]), 0x40);
    assert_eq!(calc_checksum(&vec![0xE1, 0x90, 0x14, 0x07, 0x7F, 0x3F, 0x44]), 0x66);
    assert_eq!(calc_checksum(&vec![]), 0);
    assert_eq!(wacca::calc_checksum(&vec![0xD1, 0x94, 0x00]), 0x45);
}

#[test]
fn checksum_ignores_byte_order() {
    let d = vec![0xD1u8, 0xA1, 0x80, 0x04, 0x01, 0x75, 0x33];
    let mut e = d.clone();
    e.reverse();
    e.swap(1, 4);
    assert_eq!(calc_checksum(&d), calc_checksum(&e));
}

#[test]
fn checksum_with_itself_appended_is_zero() {
    let mut body = vec![0xD3, 0x90, 0x12, 0xFF, 0x00, 0x7E];
    let c = calc_checksum(&body);
    body.push(c);
    assert_eq!(calc_checksum(&body), 0);
}

#[test]
fn serialize_initialize_command() {
    let p = wacca::CommandPacket {
        out: true,
        wedge_id: 1,
        command_id: 0x90,
        data: vec![0x14, 0x07, 0x7F, 0x3F, 0x44],
    };
    assert_eq!(p.serialize(), vec![0xE1, 0x90, 0x14, 0x07, 0x7F, 0x3F, 0x44, 0x66, 0xF0]);
    let p6 = wacca::CommandPacket { wedge_id: 6, ..p };
    assert_eq!(p6.serialize(), vec![0xE6, 0x90, 0x14, 0x07, 0x7F, 0x3F, 0x44, 0x61, 0xF0]);
}

#[test]
fn serialize_version_request_from_unit_module() {
    let p = unit::CommandPacket { out: true, wedge_id: 1, command_id: 0xA8, data: vec![] };
    assert_eq!(p.serialize(), vec![0xE1, 0xA8, 0x49, 0xF0]);
    let answer = unit::CommandPacket { out: false, wedge_id: 1, command_id: 0x94, data: vec![0] };
    assert_eq!(answer.serialize(), vec![0xD1, 0x94, 0x00, 0x45, 0xF0]);
}

#[test]
fn wacca_new_reads_version_answer() {
    let p = wacca::CommandPacket::new(VERSION_ANSWER.to_vec()).unwrap();
    assert!(!p.out);
    assert_eq!(p.wedge_id, 1);
    assert_eq!(p.command_id, 0xA8);
    assert_eq!(p.data, vec![0x31, 0x39, 0x30, 0x35, 0x31, 0x34, 0x30, 0x37, 0x33, 0x34, 0x30]);
    assert_eq!(p.serialize(), VERSION_ANSWER.to_vec());
}

#[test]
fn wacca_new_of_serialized_parse() {
    let first = wacca::CommandPacket::new(VERSION_ANSWER.to_vec()).unwrap();
    let again = wacca::CommandPacket::new(first.serialize()).unwrap();
    assert!(!again.out);
    assert_eq!(again.wedge_id, 1);
    assert_eq!(again.command_id, 0xA8);
    assert_eq!(again.data, first.data);
    assert_eq!(again.data, vec![0x31, 0x39, 0x30, 0x35, 0x31, 0x34, 0x30, 0x37, 0x33, 0x34, 0x30]);
}

#[test]
fn round_trip_without_payload() {
    for id in 1u8..7 {
        for out in [false, true] {
            let p = wacca::CommandPacket { out, wedge_id: id, command_id: 0xA1, data: vec![] };
            let q = wacca::CommandPacket::new(p.serialize()).unwrap();
            assert_eq!((q.out, q.wedge_id, q.command_id, q.data.len()), (out, id, 0xA1, 0));
            let p = unit::CommandPacket { out, wedge_id: id, command_id: 0xA1, data: vec![] };
            let q = unit::CommandPacket::new(p.serialize()).unwrap();
            assert_eq!((q.out, q.wedge_id, q.command_id, q.data.len()), (out, id, 0xA1, 0));
        }
    }
}

#[test]
fn round_trip_keeps_payload() {
    let p = unit::CommandPacket { out: true, wedge_id: 3, command_id: 0x94, data: vec![0x11, 0x0C] };
    let q = unit::CommandPacket::new(p.serialize()).unwrap();
    assert_eq!((q.out, q.wedge_id, q.command_id, q.data), (true, 3, 0x94, vec![0x11, 0x0C]));
    let p = wacca::CommandPacket { out: false, wedge_id: 2, command_id: 0x94, data: vec![7] };
    let q = wacca::CommandPacket::new(p.serialize()).unwrap();
    assert_eq!((q.out, q.wedge_id, q.command_id, q.data), (false, 2, 0x94, vec![7]));
}

#[test]
fn documented_threshold_answer() {
    let bytes = vec![0xD1, 0x94, 0x00, 0x45, 0xF0];
    let p = wacca::CommandPacket::new(bytes.clone()).unwrap();
    assert_eq!((p.out, p.wedge_id, p.command_id, p.data.clone()), (false, 1, 0x94, vec![0x00]));
    assert_eq!(p.serialize(), bytes);
    let q = unit::CommandPacket::new(bytes).unwrap();
    assert_eq!(q.data, vec![0x00]);
}

#[test]
fn new_accepts_checksum_with_0x80() {
    let p = wacca::CommandPacket::new(TOUCH_ANSWER.to_vec()).unwrap();
    assert_eq!(p.command_id, 0xA1);
    assert_eq!(p.data, vec![0x80, 0, 0, 0, 0x04, 0, 0, 0, 0, 0, 0, 0x01]);
    let q = unit::CommandPacket::new(TOUCH_ANSWER.to_vec()).unwrap();
    assert_eq!(q.data, p.data);
}

#[test]
fn new_errors() {
    assert_eq!(wacca::CommandPacket::new(vec![0xD1, 0xA8, 0x79]).unwrap_err(), "Invalid Size");
    assert_eq!(
        wacca::CommandPacket::new(vec![0xD1, 0xA8, 0x00, 0xF0]).unwrap_err(),
        "Invalid Checksum"
    );
    assert_eq!(
        wacca::CommandPacket::new(vec![0x01, 0xA8, 0xA9, 0xF0]).unwrap_err(),
        "Wedge ID out of bounds"
    );
    assert_eq!(
        wacca::CommandPacket::new(vec![0xD7, 0xA8, 0x7F, 0xF0]).unwrap_err(),
        "Wedge ID out of bounds"
    );
    assert_eq!(unit::CommandPacket::new(vec![]).unwrap_err(), "Invalid Size".to_string());
    assert_eq!(
        unit::CommandPacket::new(vec![0xD1, 0xA8, 0x00, 0xF0]).unwrap_err(),
        "Invalid Checksum".to_string()
    );
    assert_eq!(
        wacca::CommandPacket::new(vec![0xD1, 0x79, 0xF0, 0x00]).unwrap_err(),
        "Invalid Checksum"
    );
    assert_eq!(unit::CommandPacket::new(vec![0xD1, 0xA8]).unwrap_err(), "Invalid Size".to_string());
    assert_eq!(failure_text(ParseFailure::InvalidChecksum), "Invalid Checksum");
}

#[test]
fn wacca_new_drops_trailing_zero() {
    let p = wacca::CommandPacket::new(vec![0xD1, 0xA8, 0x79, 0xF0, 0x00]).unwrap();
    assert_eq!((p.wedge_id, p.command_id, p.data.len()), (1, 0xA8, 0));
    // four bytes read, three left once the zero is dropped
    let p = wacca::CommandPacket::new(vec![0xD1, 0xD1, 0xF0, 0x00]).unwrap();
    assert_eq!((p.out, p.wedge_id, p.command_id, p.data.len()), (false, 1, 0xD1, 0));
}

#[test]
fn unit_new_repairs_frames() {
    // missing end byte
    let p = unit::CommandPacket::new(vec![0xD2, 0x94, 0x00, 0x46]).unwrap();
    assert_eq!((p.wedge_id, p.command_id, p.data.clone()), (2, 0x94, vec![0x00]));
    assert_eq!(
        unit::CommandPacket::new(vec![0xD1, 0x90, 0x41]).unwrap_err(),
        "Invalid Size".to_string()
    );
    // stray leading byte
    let p = unit::CommandPacket::new(vec![0x00, 0xD1, 0x94, 0x00, 0x45, 0xF0]).unwrap();
    assert_eq!((p.wedge_id, p.command_id, p.data.clone()), (1, 0x94, vec![0x00]));
    // trailing zero after the end byte
    let p = unit::CommandPacket::new(vec![0xD1, 0x94, 0x00, 0x45, 0xF0, 0x00]).unwrap();
    assert_eq!((p.wedge_id, p.command_id), (1, 0x94));
}

#[test]
fn dissect_burst_of_answers() {
    let mut burst = Vec::new();
    for id in 1u8..7 {
        let p = unit::CommandPacket {
            out: false,
            wedge_id: id,
            command_id: 0x94,
            data: vec![0x00, 0x01],
        };
        burst.extend(p.serialize());
    }
    let packets = unit::CommandPacket::dissect(burst);
    assert_eq!(packets.len(), 6);
    for (k, p) in packets.iter().enumerate() {
        assert_eq!(p.wedge_id as usize, k + 1);
        assert_eq!(p.command_id, 0x94);
        assert_eq!(p.data, vec![0x00, 0x01]);
        assert!(!p.out);
    }
}

#[test]
fn dissect_skips_bad_pieces() {
    let mut burst = vec![0x12, 0x34, 0xF0, 0xF0, 0x05, 0xF0];
    burst.extend(TOUCH_ANSWER.to_vec());
    let packets = unit::CommandPacket::dissect(burst);
    assert_eq!(packets.len(), 1);
    assert_eq!(packets[0].command_id, 0xA1);
    assert!(unit::CommandPacket::dissect(vec![]).is_empty());
}

#[test]
fn dissect_minimal_answers() {
    let packets =
        unit::CommandPacket::dissect(vec![0xD1, 0x90, 0x41, 0xF0, 0xD2, 0x90, 0x42, 0xF0]);
    let read: Vec<_> =
        packets.iter().map(|p| (p.out, p.wedge_id, p.command_id, p.data.clone())).collect();
    assert_eq!(read, vec![(false, 1, 0x90, vec![]), (false, 2, 0x90, vec![])]);
}

#[test]
fn dissect_packet_with_zero_checksum() {
    let p = unit::CommandPacket { out: false, wedge_id: 1, command_id: 0xD1, data: vec![] };
    let bytes = p.serialize();
    assert_eq!(bytes, vec![0xD1, 0xD1, 0x00, 0xF0]);
    let packets = unit::CommandPacket::dissect(bytes);
    assert_eq!(packets.len(), 1);
    assert_eq!((packets[0].wedge_id, packets[0].command_id), (1, 0xD1));
}

#[test]
fn bulk_makes_one_packet_per_wedge() {
    let p = unit::CommandPacket { out: true, wedge_id: 1, command_id: 0x90, data: vec![1, 2] };
    let all = p.bulk(1..7);
    assert_eq!(all.len(), 6);
    for (k, q) in all.iter().enumerate() {
        assert_eq!(q.wedge_id as usize, k + 1);
        assert_eq!((q.out, q.command_id, q.data.clone()), (true, 0x90, vec![1, 2]));
    }
    assert!(p.bulk(5..5).is_empty());
    assert!(p.bulk(6..2).is_empty());
}

#[test]
fn touch_report_takes_four_bytes() {
    let packets = vec![
        unit::CommandPacket { out: false, wedge_id: 2, command_id: 0xA1, data: vec![1, 2, 3, 4, 5] },
        unit::CommandPacket { out: false, wedge_id: 5, command_id: 0xA1, data: vec![9, 8, 7, 6] },
    ];
    let r = unit::touch_report(&packets);
    assert_eq!(r, vec![(2, vec![1, 2, 3, 4]), (5, vec![9, 8, 7, 6])]);
}

#[test]
fn version_text_of_answers() {
    let p = wacca::CommandPacket::new(VERSION_ANSWER.to_vec()).unwrap();
    assert_eq!(version_prefix(&p.data), Some("190514".to_string()));
    assert_eq!(version_prefix(&vec![0x31, 0x32]), None);
    assert_eq!(version_prefix(&vec![0xFF, 0x31, 0x32, 0x33, 0x34, 0x35, 0x36]), None);
    // a two-byte character across the sixth byte
    assert_eq!(version_prefix(&"abcde\u{e9}x".as_bytes().to_vec()), None);
    assert_eq!(version_prefix(&"abcd\u{e9}x".as_bytes().to_vec()), Some("abcd\u{e9}".to_string()));
    let packets = vec![
        unit::CommandPacket { out: false, wedge_id: 3, command_id: 0xA8, data: b"190523xx".to_vec() },
    ];
    assert_eq!(unit::versions_report(&packets), Some(vec![(3, "190523".to_string())]));
    let bad = vec![unit::CommandPacket { out: false, wedge_id: 3, command_id: 0xA8, data: vec![1] }];
    assert_eq!(unit::versions_report(&bad), None);
}

#[test]
fn copy_into_cuts_at_the_end() {
    let mut v = vec![1u8, 2, 3, 4, 5];
    copy_into(&mut v, 1, &[9, 9]);
    assert_eq!(v, vec![1, 9, 9, 4, 5]);
    copy_into(&mut v, 3, &[7, 7, 7, 7]);
    assert_eq!(v, vec![1, 9, 9, 7, 7]);
    copy_into(&mut v, 5, &[1]);
    assert_eq!(v, vec![1, 9, 9, 7, 7]);
}
