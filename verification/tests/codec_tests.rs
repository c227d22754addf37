use coop_netcode::ascii::{parse_u8, put_decimal};
use coop_netcode::handshake_data::{HandshakeData, HandshakeResponse};
use coop_netcode::input::{
    pack_buttons, parse_input_packet, Action, InputCommand, InputHistory, DOWN, JUMP, LEFT,
    MAX_HISTORY, RIGHT,
};
use coop_netcode::snapshot::{
    positions_in_slot_order, send_snapshots, SnapshotUpdate, WirePosition,
};
use coop_netcode::wire::{get_u16, get_u32, put_bytes, put_u16, put_u32};

fn truncate_to_tenths(v: f32) -> f32 {
    (v * 10.0).trunc() / 10.0
}

fn wire(x: f32, y: f32) -> WirePosition {
    WirePosition { x: x.to_bits(), y: y.to_bits() }
}

#[test]
fn big_endian_fields_are_most_significant_first() {
    let mut buf = Vec::new();
    put_u32(&mut buf, 0x0102_0304);
    put_u16(&mut buf, 0xA0B1);
    put_bytes(&mut buf, &[9, 8]);
    assert_eq!(buf, vec![1, 2, 3, 4, 0xA0, 0xB1, 9, 8]);
    assert_eq!(get_u32(&buf, 0), 0x0102_0304);
    assert_eq!(get_u32(&buf, 2), 0x0304_A0B1);
    assert_eq!(get_u16(&buf, 4), 0xA0B1);
    let mut top = Vec::new();
    put_u32(&mut top, u32::MAX);
    assert_eq!(top, vec![255, 255, 255, 255]);
    assert_eq!(get_u32(&top, 0), u32::MAX);
}

#[test]
fn handshake_encodes_to_the_wire_layout() {
    let h = HandshakeData::new(3, 77, 1, "fish", "Ann");
    assert_eq!(h.packet_number, 3);
    assert_eq!(h.tick, 77);
    assert_eq!(h.player_number, 1);
    assert_eq!(
        h.encode(),
        vec![0, 0, 0, 77, 1, 3, 4, b'f', b'i', b's', b'h', 3, b'A', b'n', b'n']
    );
}

#[test]
fn handshake_round_trips_field_for_field() {
    let h = HandshakeData::new(14, 0xDEAD_BEEF, 0, "sélection", "Zoë ☺");
    let back = HandshakeData::decode(&h.encode()).expect("own image decodes");
    assert_eq!(back.tick, 0xDEAD_BEEF);
    assert_eq!(back.player_number, 0);
    assert_eq!(back.packet_number, 14);
    assert_eq!(back.character_selection, "sélection");
    assert_eq!(back.player_name, "Zoë ☺");
}

#[test]
fn handshake_with_empty_fields_round_trips() {
    let h = HandshakeData::new(0, 0, 0, "", "");
    let bytes = h.encode();
    assert_eq!(bytes, vec![0, 0, 0, 0, 0, 0, 0, 0]);
    let back = HandshakeData::decode(&bytes).expect("shortest request decodes");
    assert_eq!(back.character_selection, "");
    assert_eq!(back.player_name, "");
}

#[test]
fn handshake_with_longest_fields_round_trips() {
    let selection = "s".repeat(255);
    let name = "n".repeat(255);
    let h = HandshakeData::new(1, 2, 3, &selection, &name);
    let bytes = h.encode();
    assert_eq!(bytes.len(), 6 + 1 + 255 + 1 + 255);
    let back = HandshakeData::decode(&bytes).expect("own image decodes");
    assert_eq!(back.character_selection, selection);
    assert_eq!(back.player_name, name);
}

#[test]
fn handshake_length_byte_holds_low_eight_bits() {
    let name = "n".repeat(300);
    let bytes = HandshakeData::new(1, 2, 3, "", &name).encode();
    assert_eq!(bytes[6], 0);
    assert_eq!(bytes[7], 44);
    assert_eq!(bytes.len(), 8 + 300);
}

#[test]
fn handshake_decode_rejects_every_cut() {
    let bytes = HandshakeData::new(3, 77, 1, "fish", "Ann").encode();
    for cut in 0..bytes.len() {
        assert!(HandshakeData::decode(&bytes[..cut]).is_none(), "cut at {}", cut);
    }
    assert!(HandshakeData::decode(&bytes).is_some());
}

#[test]
fn handshake_decode_ignores_bytes_behind_the_name() {
    let mut bytes = HandshakeData::new(3, 77, 1, "fish", "Ann").encode();
    bytes.extend_from_slice(&[1, 2, 3]);
    let back = HandshakeData::decode(&bytes).expect("trailing bytes are allowed");
    assert_eq!(back.player_name, "Ann");
    assert_eq!(back.character_selection, "fish");
}

#[test]
fn handshake_decode_is_lossy_on_bad_text() {
    let bytes = vec![0, 0, 0, 1, 0, 0, 2, 0xFF, b'a', 3, b'o', 0xC3, b'k'];
    let back = HandshakeData::decode(&bytes).expect("bad text is not fatal");
    assert_eq!(back.character_selection, "\u{FFFD}a");
    assert_eq!(back.player_name, "o\u{FFFD}k");
}

#[test]
fn handshake_decode_reads_multibyte_text() {
    let bytes = vec![0, 0, 0, 1, 0, 0, 2, 0xC3, 0xA9, 0];
    let back = HandshakeData::decode(&bytes).expect("decodes");
    assert_eq!(back.character_selection, "é");
    assert_eq!(back.character_selection.chars().count(), 1);
}

#[test]
fn ack_encodes_as_text() {
    let ack = HandshakeResponse::new(1, 3);
    assert_eq!(ack.label, "ACK");
    assert_eq!(ack.encode(), b"ACK|1|3".to_vec());
    assert_eq!(HandshakeResponse::new(0, 0).encode(), b"ACK|0|0".to_vec());
    assert_eq!(HandshakeResponse::new(255, 100).encode(), b"ACK|255|100".to_vec());
    assert_eq!(HandshakeResponse::new(10, 99).encode(), b"ACK|10|99".to_vec());
}

#[test]
fn ack_round_trips_for_every_number() {
    for n in 0..=255u8 {
        let ack = HandshakeResponse::new(n, 255 - n);
        assert_eq!(ack.encode(), format!("ACK|{}|{}", n, 255 - n).into_bytes());
        let back = HandshakeResponse::decode(&ack.encode()).expect("own image decodes");
        assert_eq!(back.label, "ACK");
        assert_eq!(back.player_number, n);
        assert_eq!(back.packet_number, 255 - n);
    }
}

#[test]
fn ack_decode_accepts_sign_and_leading_zeros() {
    let back = HandshakeResponse::decode(b"ACK|+1|003").expect("decodes");
    assert_eq!(back.player_number, 1);
    assert_eq!(back.packet_number, 3);
    let zeros = HandshakeResponse::decode(b"ACK|0000000000000000000255|+0").expect("decodes");
    assert_eq!(zeros.player_number, 255);
    assert_eq!(zeros.packet_number, 0);
}

#[test]
fn ack_decode_rejects_what_is_not_an_ack() {
    let bad: Vec<&[u8]> = vec![
        b"",
        b"ACK",
        b"ACK|",
        b"ACK|1",
        b"ACK|1|",
        b"ACK||3",
        b"ACK|1|3|4",
        b"ACK|1|3|",
        b"NAK|1|3",
        b"ack|1|3",
        b" ACK|1|3",
        b"ACK|256|3",
        b"ACK|1|256",
        b"ACK|1|1000",
        b"ACK|-1|3",
        b"ACK|1|+",
        b"ACK|++1|3",
        b"ACK|1 |3",
        b"ACK|1|3\n",
        b"ACK|1|\xFF",
        b"ACK|0x1|3",
        b"MAIN",
    ];
    for data in bad {
        assert!(HandshakeResponse::decode(data).is_none(), "accepted {:?}", data);
    }
}

#[test]
fn decimal_text_is_parsed_like_an_unsigned_byte() {
    for n in 0..=255u8 {
        let mut buf = Vec::new();
        put_decimal(&mut buf, n);
        assert_eq!(buf, n.to_string().into_bytes());
        assert_eq!(parse_u8(&buf), Some(n));
    }
    let cases: Vec<&[u8]> =
        vec![b"", b"+", b"-", b"-0", b"256", b"0256", b"99999999999999999999", b"1a", b"a1", b" 1", b"+007", b"255"];
    for text in cases {
        let expected = std::str::from_utf8(text).unwrap().parse::<u8>().ok();
        assert_eq!(parse_u8(text), expected, "text {:?}", text);
    }
}

#[test]
fn mask_bits_follow_the_protocol_order() {
    assert_eq!(JUMP, 1 << 0);
    assert_eq!(LEFT, 1 << 1);
    assert_eq!(DOWN, 1 << 2);
    assert_eq!(RIGHT, 1 << 3);
    assert_eq!(pack_buttons(false, false, false, false), 0);
    assert_eq!(pack_buttons(true, false, false, false), 1);
    assert_eq!(pack_buttons(false, true, false, false), 2);
    assert_eq!(pack_buttons(false, false, true, false), 4);
    assert_eq!(pack_buttons(false, false, false, true), 8);
    assert_eq!(pack_buttons(true, true, true, true), 15);
    assert_eq!(pack_buttons(true, false, false, true), 9);
}

#[test]
fn input_frame_is_sequence_then_mask() {
    let frame = InputCommand { seq: 0x0001_0203, mask: 9 }.encode();
    assert_eq!(frame, vec![0, 1, 2, 3, 9]);
    assert_eq!(InputCommand::decode(&frame), Some(InputCommand { seq: 0x0001_0203, mask: 9 }));
    assert_eq!(InputCommand::decode(&frame[..4]), None);
    assert_eq!(InputCommand::decode(&[]), None);
    let mut long = frame.clone();
    long.push(77);
    assert_eq!(InputCommand::decode(&long), Some(InputCommand { seq: 0x0001_0203, mask: 9 }));
}

#[test]
fn input_packet_gives_buttons_and_release_edge() {
    let pressed = parse_input_packet(&[0, 0, 0, 1, JUMP | RIGHT], 0, 1).expect("long enough");
    assert_eq!(pressed.player, 1);
    assert!(pressed.jump_pressed);
    assert!(pressed.right);
    assert!(!pressed.left);
    assert!(!pressed.jump_just_released);
    let released = parse_input_packet(&[0, 0, 0, 2, LEFT], JUMP | RIGHT, 1).expect("long enough");
    assert!(!released.jump_pressed);
    assert!(released.left);
    assert!(!released.right);
    assert!(released.jump_just_released);
    let still_up = parse_input_packet(&[0, 0, 0, 3, DOWN], LEFT, 0).expect("long enough");
    assert!(!still_up.jump_just_released);
    assert!(!still_up.left && !still_up.right && !still_up.jump_pressed);
    let held = parse_input_packet(&[0, 0, 0, 4, JUMP], JUMP, 0).expect("long enough");
    assert!(held.jump_pressed);
    assert!(!held.jump_just_released);
}

#[test]
fn input_packet_one_byte_short_is_rejected() {
    assert_eq!(parse_input_packet(&[0, 0, 0, 1], JUMP, 0), None);
    assert_eq!(parse_input_packet(&[], 0, 0), None);
}

#[test]
fn history_evicts_oldest_beyond_capacity() {
    let mut history = InputHistory::new();
    assert_eq!(history.len(), 0);
    assert_eq!(history.get(0), None);
    for tick in 1..=(MAX_HISTORY as u32) {
        history.push(tick, (tick % 16) as u8);
    }
    assert_eq!(history.len(), MAX_HISTORY);
    assert_eq!(history.get(0).unwrap().tick, 1);
    history.push(201, 5);
    assert_eq!(history.len(), MAX_HISTORY);
    assert_eq!(history.get(0).unwrap().tick, 2);
    let last = history.get(MAX_HISTORY - 1).unwrap();
    assert_eq!((last.tick, last.mask), (201, 5));
    assert_eq!(history.get(MAX_HISTORY), None);
}

#[test]
fn history_retains_only_newer_entries_in_order() {
    let mut history = InputHistory::new();
    for (tick, mask) in [(10, LEFT), (11, LEFT), (12, RIGHT), (9, JUMP), (13, DOWN)] {
        history.push(tick, mask);
    }
    history.retain_newer(10);
    assert_eq!(history.len(), 3);
    assert_eq!(history.get(0).unwrap().tick, 11);
    assert_eq!(history.get(1).unwrap().tick, 12);
    assert_eq!(history.get(2).unwrap().tick, 13);
    assert_eq!(history.get(2).unwrap().mask, DOWN);
    history.retain_newer(10);
    assert_eq!(history.len(), 3);
    history.retain_newer(u32::MAX);
    assert_eq!(history.len(), 0);
}

#[test]
fn snapshot_encodes_to_the_wire_layout() {
    let snapshot = SnapshotUpdate { tick: 5, positions: vec![wire(1.5, -2.0)] };
    assert_eq!(
        snapshot.encode(),
        vec![0, 0, 0, 5, 0, 1, 0x3F, 0xC0, 0, 0, 0xC0, 0, 0, 0]
    );
    let empty = SnapshotUpdate { tick: 0x0102_0304, positions: vec![] };
    assert_eq!(empty.encode(), vec![1, 2, 3, 4, 0, 0]);
}

#[test]
fn snapshot_round_trips_word_for_word() {
    let positions = vec![wire(12.3, -4.5), wire(0.0, 1e9), wire(-0.1, f32::MAX)];
    let snapshot = SnapshotUpdate { tick: 900, positions: positions.clone() };
    let back = SnapshotUpdate::decode(&snapshot.encode()).expect("own image decodes");
    assert_eq!(back.tick, 900);
    assert_eq!(back.positions, positions);
}

#[test]
fn snapshot_recovers_positions_within_a_tenth() {
    let raw = [(12.3456f32, -4.5678f32), (0.09, -0.09), (1234.567, 99.99), (-300.05, 450.0)];
    let sent: Vec<WirePosition> =
        raw.iter().map(|(x, y)| wire(truncate_to_tenths(*x), truncate_to_tenths(*y))).collect();
    let mut tick = 41;
    let msg = send_snapshots(&mut tick, sent);
    let back = SnapshotUpdate::decode(&msg.data).expect("own image decodes");
    assert_eq!(back.tick, 42);
    assert_eq!(back.positions.len(), raw.len());
    for (got, (x, y)) in back.positions.iter().zip(raw.iter()) {
        assert!((f32::from_bits(got.x) - x).abs() < 0.1);
        assert!((f32::from_bits(got.y) - y).abs() < 0.1);
    }
    assert_eq!(f32::from_bits(back.positions[0].x), 12.3);
    assert_eq!(f32::from_bits(back.positions[0].y), -4.5);
}

#[test]
fn snapshot_decode_rejects_short_and_cut_off_buffers() {
    let bytes = SnapshotUpdate { tick: 7, positions: vec![wire(1.0, 2.0), wire(3.0, 4.0)] }.encode();
    assert_eq!(bytes.len(), 6 + 16);
    for cut in 0..bytes.len() {
        assert!(SnapshotUpdate::decode(&bytes[..cut]).is_none(), "cut at {}", cut);
    }
    assert!(SnapshotUpdate::decode(&[0, 0, 0, 1, 0xFF, 0xFF]).is_none());
    let empty = SnapshotUpdate::decode(&[0, 0, 0, 1, 0, 0]).expect("no players is a snapshot");
    assert_eq!(empty.tick, 1);
    assert!(empty.positions.is_empty());
}

#[test]
fn snapshot_decode_ignores_bytes_behind_the_last_position() {
    let mut bytes = SnapshotUpdate { tick: 7, positions: vec![wire(1.0, 2.0)] }.encode();
    bytes.extend_from_slice(&[9, 9, 9]);
    let back = SnapshotUpdate::decode(&bytes).expect("trailing bytes are allowed");
    assert_eq!(back.positions, vec![wire(1.0, 2.0)]);
}

#[test]
fn send_snapshots_advances_the_tick_first() {
    let mut tick = 0;
    let first = send_snapshots(&mut tick, vec![wire(0.5, 0.5), wire(1.0, 1.0)]);
    assert_eq!(tick, 1);
    assert_eq!(&first.data[..6], &[0, 0, 0, 1, 0, 2]);
    assert_eq!(first.data.len(), 6 + 2 * 8);
    let second = send_snapshots(&mut tick, vec![]);
    assert_eq!(tick, 2);
    assert_eq!(second.data, vec![0, 0, 0, 2, 0, 0]);
}

#[test]
fn positions_are_put_in_slot_order() {
    let listed = vec![(1, wire(1.0, 1.5)), (0, wire(0.5, 0.0)), (1, wire(9.0, 9.0)), (7, wire(7.0, 7.0))];
    assert_eq!(positions_in_slot_order(&listed, 2), vec![wire(0.5, 0.0), wire(1.0, 1.5)]);
    assert_eq!(
        positions_in_slot_order(&listed, 3),
        vec![wire(0.5, 0.0), wire(1.0, 1.5), WirePosition { x: 0, y: 0 }]
    );
    assert!(positions_in_slot_order(&listed, 0).is_empty());
    assert_eq!(positions_in_slot_order(&[], 1), vec![wire(0.0, 0.0)]);
}

#[test]
fn default_history_is_empty() {
    let history = InputHistory::default();
    assert_eq!(history.len(), 0);
}

#[test]
fn actions_are_numbered_and_hold_their_buttons() {
    let all = [Action::I, Action::L, Action::R, Action::J, Action::LJ, Action::RJ];
    let masks = [0, LEFT, RIGHT, JUMP, LEFT | JUMP, RIGHT | JUMP];
    for (i, action) in all.iter().enumerate() {
        assert_eq!(action.index(), i);
        assert_eq!(Action::from_index(i), *action);
        assert_eq!(action.mask(), masks[i]);
    }
    assert_eq!(Action::from_index(6), Action::I);
    assert_eq!(Action::from_index(usize::MAX), Action::I);
}
