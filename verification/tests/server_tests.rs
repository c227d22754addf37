use coop_netcode::handshake_data::HandshakeData;
use coop_netcode::input::{InputCommand, RemoteInputEvent, JUMP, LEFT, RIGHT};
use coop_netcode::server::{
    ClientRegistry, ClientSession, DropReason, Endpoint, ServerAction, SLOT_COUNT,
};

fn peer(last: u32, port: u16) -> Endpoint {
    Endpoint::V4 { ip: 0x0A00_0000 | last, port }
}

fn handshake(player_number: u8, packet_number: u8) -> Vec<u8> {
    HandshakeData::new(packet_number, 0, player_number, "fish", "Ann").encode()
}

fn reply_of(action: ServerAction) -> Vec<u8> {
    match action {
        ServerAction::Reply(bytes) => bytes,
        other => panic!("expected a reply, got {:?}", other),
    }
}

fn event_of(action: ServerAction) -> RemoteInputEvent {
    match action {
        ServerAction::Apply(event) => event,
        other => panic!("expected an event, got {:?}", other),
    }
}

#[test]
fn new_registry_has_no_clients() {
    let registry = ClientRegistry::new();
    assert!(!registry.has_clients());
    assert_eq!(registry.len(), 0);
    assert!(registry.addresses().is_empty());
    assert_eq!(registry.session(peer(1, 4000)), None);
}

#[test]
fn handshake_registers_and_is_acknowledged() {
    let mut registry = ClientRegistry::new();
    let a = peer(1, 4000);
    let reply = reply_of(registry.handle_datagram(a, &handshake(0, 7), 1234));
    assert_eq!(reply, b"ACK|0|7".to_vec());
    assert!(registry.has_clients());
    assert_eq!(
        registry.session(a),
        Some(ClientSession { addr: a, last_seen: 1234, player_number: 0, prev_mask: 0 })
    );
    assert_eq!(registry.addresses(), vec![a]);
}

#[test]
fn repeated_handshake_is_acknowledged_without_a_second_session() {
    let mut registry = ClientRegistry::new();
    let a = peer(1, 4000);
    reply_of(registry.handle_datagram(a, &handshake(0, 0), 10));
    let frame = InputCommand { seq: 1, mask: JUMP }.encode();
    event_of(registry.handle_datagram(a, &frame, 20));
    let again = reply_of(registry.handle_datagram(a, &handshake(1, 1), 30));
    assert_eq!(again, b"ACK|1|1".to_vec());
    assert_eq!(registry.len(), 1);
    assert_eq!(
        registry.session(a),
        Some(ClientSession { addr: a, last_seen: 20, player_number: 0, prev_mask: JUMP })
    );
}

#[test]
fn two_addresses_get_two_slots_and_a_third_overwrites_nothing() {
    let mut registry = ClientRegistry::new();
    let main = peer(1, 4000);
    let play = peer(2, 4000);
    let third = peer(3, 4000);
    reply_of(registry.handle_datagram(main, &handshake(0, 0), 1));
    reply_of(registry.handle_datagram(play, &handshake(1, 0), 2));
    let main_session = registry.session(main).expect("registered");
    let play_session = registry.session(play).expect("registered");
    assert_eq!(main_session.player_number, 0);
    assert_eq!(play_session.player_number, 1);
    assert_ne!(main_session.player_number, play_session.player_number);

    let reply = reply_of(registry.handle_datagram(third, &handshake(0, 5), 3));
    assert_eq!(reply, b"ACK|0|5".to_vec());
    assert_eq!(registry.session(main), Some(main_session));
    assert_eq!(registry.session(play), Some(play_session));
    assert_eq!(registry.len(), 3);
    assert_eq!(registry.addresses(), vec![main, play, third]);
}

#[test]
fn any_player_number_but_zero_claims_slot_one() {
    let mut registry = ClientRegistry::new();
    for (i, number) in [1u8, 2, 7, 255].iter().enumerate() {
        let addr = peer(10 + i as u32, 5000);
        assert!(registry.register(addr, *number, 0));
        assert_eq!(registry.session(addr).unwrap().player_number, 1);
    }
    let zero = peer(99, 5000);
    assert!(registry.register(zero, 0, 0));
    assert!(!registry.register(zero, 1, 50));
    assert_eq!(
        registry.session(zero),
        Some(ClientSession { addr: zero, last_seen: 0, player_number: 0, prev_mask: 0 })
    );
}

#[test]
fn same_host_other_port_is_another_peer() {
    let mut registry = ClientRegistry::new();
    let a = peer(1, 4000);
    let b = peer(1, 4001);
    let c = Endpoint::V6 { ip: 0x0A00_0001, port: 4000, flowinfo: 0, scope_id: 0 };
    reply_of(registry.handle_datagram(a, &handshake(0, 0), 1));
    reply_of(registry.handle_datagram(b, &handshake(1, 0), 1));
    reply_of(registry.handle_datagram(c, &handshake(1, 0), 1));
    assert_eq!(registry.len(), 3);
    assert_eq!(registry.session(b).unwrap().addr, b);
    assert_eq!(registry.session(c).unwrap().addr, c);
}

#[test]
fn four_byte_datagram_is_rejected_and_leaves_previous_mask() {
    let mut registry = ClientRegistry::new();
    let a = peer(1, 4000);
    reply_of(registry.handle_datagram(a, &handshake(0, 0), 1));
    event_of(registry.handle_datagram(a, &InputCommand { seq: 1, mask: JUMP | LEFT }.encode(), 2));
    let before = registry.session(a).expect("registered");
    assert_eq!(before.prev_mask, JUMP | LEFT);

    let action = registry.handle_datagram(a, &[0, 0, 0, 2], 3);
    assert!(matches!(action, ServerAction::Ignore(DropReason::Malformed)));
    assert_eq!(registry.session(a), Some(before));
    let empty = registry.handle_datagram(a, &[], 4);
    assert!(matches!(empty, ServerAction::Ignore(DropReason::Malformed)));
    assert_eq!(registry.session(a), Some(before));
}

#[test]
fn input_from_unregistered_address_is_dropped() {
    let mut registry = ClientRegistry::new();
    let a = peer(1, 4000);
    let stranger = peer(66, 4000);
    reply_of(registry.handle_datagram(a, &handshake(0, 0), 1));
    let frame = InputCommand { seq: 1, mask: RIGHT }.encode();
    let action = registry.handle_datagram(stranger, &frame, 2);
    assert!(matches!(action, ServerAction::Ignore(DropReason::UnknownSender)));
    let short = registry.handle_datagram(stranger, &[1, 2], 2);
    assert!(matches!(short, ServerAction::Ignore(DropReason::UnknownSender)));
    assert_eq!(registry.len(), 1);
    assert_eq!(registry.session(stranger), None);
    assert_eq!(
        registry.accept_input(stranger, &frame, 3),
        Err(DropReason::UnknownSender)
    );
}

#[test]
fn accepted_input_targets_the_slot_and_updates_the_session() {
    let mut registry = ClientRegistry::new();
    let main = peer(1, 4000);
    let play = peer(2, 4000);
    reply_of(registry.handle_datagram(main, &handshake(0, 0), 1));
    reply_of(registry.handle_datagram(play, &handshake(1, 0), 1));

    let first = event_of(registry.handle_datagram(
        play,
        &InputCommand { seq: 1, mask: JUMP | RIGHT }.encode(),
        100,
    ));
    assert_eq!(
        first,
        RemoteInputEvent {
            player: 1,
            left: false,
            right: true,
            jump_pressed: true,
            jump_just_released: false,
        }
    );
    let second =
        event_of(registry.handle_datagram(play, &InputCommand { seq: 2, mask: LEFT }.encode(), 117));
    assert_eq!(
        second,
        RemoteInputEvent {
            player: 1,
            left: true,
            right: false,
            jump_pressed: false,
            jump_just_released: true,
        }
    );
    assert_eq!(
        registry.session(play),
        Some(ClientSession { addr: play, last_seen: 117, player_number: 1, prev_mask: LEFT })
    );
    assert_eq!(
        registry.session(main),
        Some(ClientSession { addr: main, last_seen: 1, player_number: 0, prev_mask: 0 })
    );
}

#[test]
fn every_accepted_datagram_gives_one_event() {
    let mut registry = ClientRegistry::new();
    let a = peer(1, 4000);
    reply_of(registry.handle_datagram(a, &handshake(0, 0), 1));
    let frame = InputCommand { seq: 9, mask: JUMP }.encode();
    let one = event_of(registry.handle_datagram(a, &frame, 2));
    let two = event_of(registry.handle_datagram(a, &frame, 2));
    assert!(one.jump_pressed && two.jump_pressed);
    assert!(!one.jump_just_released && !two.jump_just_released);
}

#[test]
fn acknowledged_peer_is_in_the_next_broadcast_list() {
    let mut registry = ClientRegistry::new();
    for i in 0..20u32 {
        let addr = peer(i, 4000);
        reply_of(registry.handle_datagram(addr, &handshake((i % 2) as u8, 0), u64::from(i)));
        let targets = registry.addresses();
        assert!(targets.contains(&addr));
        assert_eq!(targets.len(), (i + 1) as usize);
    }
}

#[test]
fn default_registry_is_empty_and_events_stay_within_the_slots() {
    let mut registry = ClientRegistry::default();
    assert!(!registry.has_clients());
    assert_eq!(SLOT_COUNT, 2);
    for number in [0u8, 1, 2, 200, 255] {
        let addr = peer(u32::from(number), 4000);
        reply_of(registry.handle_datagram(addr, &handshake(number, 0), 0));
        let event =
            event_of(registry.handle_datagram(addr, &InputCommand { seq: 1, mask: 0 }.encode(), 1));
        assert!(event.player < SLOT_COUNT);
    }
}
