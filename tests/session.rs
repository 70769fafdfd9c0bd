use fe2o3::framing::{read_frames, write_envelope};
use fe2o3::packets::{Handshake, LoginStart, Packet, SetCenterChunk, StatusRequest, StatusResponse, ClientInformation, PluginMessage};
use fe2o3::player::{GameMode, Location, MainHand, MoveOutcome, Nameable, Player, square_difference};
use fe2o3::protocol::{classify, disconnect_packet_id, keep_alive_due, transition, PlayerState, ServerboundKind, StateEvent, TransitionError};
use fe2o3::settings::{GameRule, GameRules, ServerSettings};
use fe2o3::status::{ChatMode, Connection};
use fe2o3::text::{Component, TextColor, TextStyle};
use fe2o3::types::{ByteArrayInferredLength, Identifier};
use fe2o3::varint::VarInt;
use fe2o3::wire::Serializable;
use fe2o3::world::{pack_entries, Chunk, ChunkSection, HeightMap};

fn handshake_bytes() -> Vec<u8> {
    let hs = Handshake { protocol_version: VarInt(767), address: String::new(), port: 0, next_state: VarInt(1) };
    let mut payload = Vec::new();
    hs.serialize(&mut payload);
    payload
}

#[test]
fn handshake_then_status() {
    let mut stream = write_envelope(Handshake { protocol_version: VarInt(0), address: String::new(), port: 0, next_state: VarInt(0) }.id(), &handshake_bytes(), None).unwrap();
    stream.extend(write_envelope(StatusRequest.id(), &[], None).unwrap());
    let (frames, consumed, _) = read_frames(&stream, None);
    assert_eq!(frames.len(), 2);
    assert_eq!(consumed, stream.len());
    let mut state = PlayerState::HANDSHAKE;
    assert_eq!(classify(state, frames[0].id), Some(ServerboundKind::Handshake));
    let hs = Handshake::decode(&frames[0].payload).unwrap();
    assert_eq!(hs.protocol_version, VarInt(767));
    assert_eq!(transition(&mut state, StateEvent::Handshake { next_state: hs.next_state.0 }), Ok(()));
    assert_eq!(state, PlayerState::STATUS);
    assert_eq!(classify(state, frames[1].id), Some(ServerboundKind::StatusRequest));
    let reply = StatusResponse::new(100, 0, &Component::new("Hello"), false);
    assert!(reply.response.contains("\"protocol\":767"));
    assert!(reply.response.contains("\"name\":\"1.21.1\""));
    assert_eq!(reply.response, "{\"version\":{\"name\":\"1.21.1\",\"protocol\":767},\"players\":{\"max\":100,\"online\":0},\"description\":{\"text\":\"Hello\"},\"enforcesSecureChat\":false}");
}

#[test]
fn state_machine_transitions() {
    let mut s = PlayerState::HANDSHAKE;
    assert_eq!(transition(&mut s, StateEvent::LoginAcknowledged), Err(TransitionError::Illegal));
    assert_eq!(s, PlayerState::HANDSHAKE);
    assert_eq!(transition(&mut s, StateEvent::Handshake { next_state: 9 }), Err(TransitionError::UnknownNextState(9)));
    assert_eq!(transition(&mut s, StateEvent::Handshake { next_state: 3 }), Ok(()));
    assert_eq!(s, PlayerState::LOGIN);
    assert_eq!(transition(&mut s, StateEvent::Handshake { next_state: 1 }), Err(TransitionError::Illegal));
    assert_eq!(transition(&mut s, StateEvent::LoginAcknowledged), Ok(()));
    assert_eq!(s, PlayerState::CONFIGURATION);
    assert_eq!(transition(&mut s, StateEvent::AcknowledgeFinishConfiguration), Ok(()));
    assert_eq!(s, PlayerState::PLAY);
    assert_eq!(transition(&mut s, StateEvent::LoginAcknowledged), Err(TransitionError::Illegal));
    assert_eq!(s, PlayerState::PLAY);
}

#[test]
fn dispatch_table_and_disconnect_ids() {
    assert_eq!(classify(PlayerState::PLAY, 0x1A), Some(ServerboundKind::SetPlayerPosition));
    assert_eq!(classify(PlayerState::PLAY, 0x7F), None);
    assert_eq!(classify(PlayerState::CONFIGURATION, 0), Some(ServerboundKind::ClientInformation));
    assert!(ServerboundKind::LoginAcknowledged.is_state_changing());
    assert!(!ServerboundKind::PingRequest.is_state_changing());
    assert_eq!(disconnect_packet_id(PlayerState::LOGIN), Some(0x00));
    assert_eq!(disconnect_packet_id(PlayerState::CONFIGURATION), Some(0x02));
    assert_eq!(disconnect_packet_id(PlayerState::PLAY), Some(0x1D));
    assert_eq!(disconnect_packet_id(PlayerState::STATUS), None);
    assert!(keep_alive_due(5001));
    assert!(!keep_alive_due(5000));
}

#[test]
fn client_information_and_plugin_message_decode() {
    let info = ClientInformation {
        locale: "en_us".to_string(), view_distance: 12, chat_mode: VarInt(1), chat_colors: true,
        displayed_skin_parts: 0x7F, main_hand: VarInt(1), text_filtering: false, allow_server_listing: true,
    };
    let mut bytes = Vec::new();
    info.serialize(&mut bytes);
    assert_eq!(ClientInformation::decode(&bytes), Ok(info));
    assert_eq!(ChatMode::from_id(1), ChatMode::CommandsOnly);
    assert_eq!(ChatMode::from_id(9), ChatMode::All);
    assert_eq!(MainHand::from_id(0), MainHand::Left);
    let msg = PluginMessage { channel: Identifier::new("minecraft", "brand"), data: ByteArrayInferredLength(b"vanilla".to_vec()) };
    let mut bytes = Vec::new();
    msg.serialize(&mut bytes);
    assert_eq!(PluginMessage::decode(&bytes), Ok(msg));
}

fn loc(x: f64, y: f64, z: f64) -> Location {
    Location { x: x.to_bits(), y: y.to_bits(), z: z.to_bits(), yaw: 0, pitch: 0 }
}

#[test]
fn movement_gate_survival_teleports() {
    let mut p = Player::new("alex".to_string(), 1, "en_us".to_string(), MainHand::Right, 7, 10);
    assert_eq!(p.game_mode(), GameMode::Survival);
    let chunk = Chunk::flat_generation();
    let out = p.handle_move(loc(0.5, 0.0, 0.0), true, (0, 0), 42, &chunk);
    assert_eq!(out, MoveOutcome::Teleported { accepted: true });
    assert_eq!(p.location(), loc(0.0, 0.0, 0.0));
    let sent = p.take_unsent_teleports();
    assert_eq!(sent.len(), 1);
    assert_eq!(sent[0].id, 42);
    assert_eq!(sent[0].target, loc(0.5, 0.0, 0.0));
    assert_eq!(p.teleport_acknowledge(41), None);
    assert_eq!(p.teleport_acknowledge(42), Some(loc(0.5, 0.0, 0.0)));
    assert_eq!(p.teleport_acknowledge(42), None);
}

#[test]
fn movement_gate_creative_moves() {
    let mut p = Player::new("alex".to_string(), 1, "en_us".to_string(), MainHand::Right, 7, 10);
    p.set_game_mode(GameMode::Creative);
    p.update_view_distance(2);
    let chunk = Chunk::flat_generation();
    let out = p.handle_move(loc(0.5, 0.0, 0.0), true, (0, 0), 42, &chunk);
    assert_eq!(out, MoveOutcome::Moved { center: None, unloaded: vec![], loaded: vec![] });
    assert_eq!(p.location(), loc(0.5, 0.0, 0.0));
    let out = p.handle_move(loc(17.0, 0.0, 0.0), true, (1, 0), 43, &chunk);
    match out {
        MoveOutcome::Moved { center, unloaded, loaded } => {
            assert_eq!(center, Some((1, 0)));
            assert_eq!(unloaded, vec![(-2, -2), (-2, -1), (-2, 0), (-2, 1), (-2, 2)]);
            assert_eq!(loaded, vec![(3, -2), (3, -1), (3, 0), (3, 1), (3, 2)]);
        }
        _ => panic!("expected a move"),
    }
    let packets = p.drain_outbox();
    assert_eq!(packets.len(), 11);
    assert_eq!(packets[0].id, SetCenterChunk { x: VarInt(0), z: VarInt(0) }.id());
    assert_eq!(packets[0].payload, vec![1, 0]);
    assert_eq!(packets.iter().filter(|q| q.id == 0x21).count(), 5);
    assert_eq!(packets.iter().filter(|q| q.id == 0x27).count(), 5);
    assert_eq!(packets[1].payload, vec![0xFF, 0xFF, 0xFF, 0xFE, 0xFF, 0xFF, 0xFF, 0xFE]);
}

#[test]
fn view_distance_is_capped() {
    let mut p = Player::new("steve".to_string(), 2, "en_us".to_string(), MainHand::Left, 1, 8);
    p.update_view_distance(32);
    assert_eq!(p.view_distance(), 8);
    p.update_view_distance(4);
    assert_eq!(p.view_distance(), 4);
    assert_eq!(p.actual_view_distance(3), 3);
    assert_eq!(p.actual_view_distance(100), 4);
}

#[test]
fn teleport_ids_stay_unique() {
    let mut p = Player::new("steve".to_string(), 2, "en_us".to_string(), MainHand::Left, 1, 8);
    assert!(p.teleport(loc(1.0, 2.0, 3.0), 5));
    assert!(!p.teleport(loc(4.0, 5.0, 6.0), 5));
    assert_eq!(p.teleport_acknowledge(5), None);
    assert_eq!(p.take_unsent_teleports().len(), 1);
    assert_eq!(p.take_unsent_teleports().len(), 0);
    assert_eq!(p.teleport_acknowledge(5), Some(loc(1.0, 2.0, 3.0)));
}

#[test]
fn keep_alive_ping_and_pong() {
    let mut p = Player::new("steve".to_string(), 2, "en_us".to_string(), MainHand::Left, 1, 8);
    p.send_keep_alive(77);
    assert!(p.keep_alive_matches(77));
    assert!(!p.keep_alive_matches(78));
    let q = p.drain_outbox();
    assert_eq!(q.len(), 1);
    assert_eq!((q[0].id, q[0].payload.clone()), (0x05, vec![0, 0, 0, 77]));
    assert_eq!(p.apply_event(StateEvent::AcknowledgeFinishConfiguration), Ok(()));
    assert_eq!(p.state(), PlayerState::PLAY);
    p.send_keep_alive(-1);
    let q = p.drain_outbox();
    assert_eq!((q[0].id, q[0].payload.clone()), (0x35, vec![0xFF, 0xFF, 0xFF, 0xFF]));
}

#[test]
fn square_difference_edges() {
    assert_eq!(square_difference((0, 0), (0, 0), 3), vec![]);
    assert_eq!(square_difference((0, 0), (5, 5), 0), vec![(0, 0)]);
    assert_eq!(square_difference((0, 0), (1, 0), 1), vec![(-1, -1), (-1, 0), (-1, 1)]);
    assert_eq!(square_difference((i32::MAX, 0), (0, 0), 1).len(), 6);
}

#[test]
fn pack_entries_words() {
    assert_eq!(pack_entries(&[1, 2, 3], 9), vec![1 | (2 << 9) | (3 << 18)]);
    assert_eq!(pack_entries(&[], 15), Vec::<i64>::new());
    let many = vec![1i32; 5];
    assert_eq!(pack_entries(&many, 15), vec![1 | (1 << 15) | (1 << 30) | (1 << 45), 1]);
    assert_eq!(pack_entries(&[0xFFFF_FFFF_u32 as i32 & 0x7FFF_FFFF, 1], 32), vec![0x7FFF_FFFF | (1 << 32)]);
}

#[test]
fn height_map_and_sections() {
    let mut hm = HeightMap::new();
    hm.set_height(3, 4, 70);
    assert_eq!(hm.get_height(3, 4), 70);
    assert_eq!(hm.get_height(4, 3), 0);
    let mut s = ChunkSection::empty();
    assert_eq!(s.to_bytes(), vec![0, 0, 0, 0, 0, 0, 0, 0]);
    s.set_block(1, 2, 3, 9);
    assert_eq!(s.get_block(1, 2, 3), 9);
    let b = s.to_bytes();
    assert_eq!(&b[..3], &[0, 1, 15]);
    let chunk = Chunk::flat_generation();
    let payload = chunk.packet_payload(2, -1);
    assert_eq!(&payload[..8], &[0, 0, 0, 2, 0xFF, 0xFF, 0xFF, 0xFF]);
    assert_eq!(payload[8], 10);
    assert_eq!(&payload[payload.len() - 7..], &[0; 7]);
    let _ = Chunk::empty();
}

#[test]
fn text_components() {
    let mut c = Component::new_with_color("hi", TextColor::Red);
    c.style(TextStyle::Bold);
    c.append(Component::new("a"));
    c.append(Component::new_with_color("b", TextColor::Other(0xff00aa)));
    assert_eq!(c.to_json(), "{\"text\":\"hi\",\"color\":\"red\",\"bold\":true,\"extra\":[{\"text\":\"a\"},{\"text\":\"b\",\"color\":\"#ff00aa\"}]}");
    let plain = Component::new("x");
    assert_eq!(plain.to_json(), "{\"text\":\"x\"}");
    let mut colored = Component::new("y");
    colored.color(TextColor::DarkBlue);
    assert_eq!(colored.to_json(), "{\"text\":\"y\",\"color\":\"dark_blue\"}");
}

#[test]
fn settings_and_game_rules() {
    let s = ServerSettings::default_settings();
    assert_eq!((s.ip.as_str(), s.port), ("127.0.0.1", 25565));
    let mut rules = GameRules::new();
    let r = rules.get_gamerules_or_load(Identifier::new("minecraft", "overworld"));
    assert_eq!(r.random_tick_speed, 3);
    assert!(!r.keep_inventory);
    rules.get_gamerules_or_load_mut(Identifier::new("minecraft", "overworld")).keep_inventory = true;
    assert!(rules.get_gamerules_or_load(Identifier::new("minecraft", "overworld")).keep_inventory);
    assert!(!rules.get_gamerules_or_load(Identifier::new("minecraft", "nether")).keep_inventory);
    assert_eq!(GameRule::default_rules().spawn_radius, 10);
    let mut c = Connection::new(9);
    assert_eq!(c.state, PlayerState::HANDSHAKE);
    assert!(c.enable_compression(50));
    assert!(!c.enable_compression(60));
    assert_eq!(c.compression_threshold, Some(50));
}

#[test]
fn login_start_and_handlers() {
    let mut c = Connection::new(1);
    let (sc, ok) = c.handle_login_start(LoginStart { name: "alex".to_string(), uuid: 7 }, 50);
    assert_eq!(sc.threshold, VarInt(50));
    assert_eq!(ok.username, "alex");
    assert_eq!(ok.uuid, 7);
    assert_eq!(c.compression_threshold, Some(50));
    assert_eq!(c.username, "alex");
    let mut p = Player::new("alex".to_string(), 7, "en_us".to_string(), MainHand::Right, 1, 10);
    assert!(p.handle_plugin_message(PluginMessage { channel: Identifier::new("minecraft", "brand"), data: ByteArrayInferredLength(b"vanilla".to_vec()) }));
    assert_eq!(p.brand(), "vanilla");
    assert!(!p.handle_plugin_message(PluginMessage { channel: Identifier::new("other", "brand"), data: ByteArrayInferredLength(b"x".to_vec()) }));
    assert_eq!(p.brand(), "vanilla");
    p.send_keep_alive(5);
    p.drain_outbox();
    assert!(p.handle_pong(5));
    assert_eq!(p.drain_outbox().len(), 0);
    assert!(!p.handle_pong(6));
    let q = p.drain_outbox();
    assert_eq!(q.len(), 1);
    assert_eq!(q[0].id, 0x02);
    assert_eq!(q[0].payload[0], 10);
}

#[test]
fn ability_and_sync_packets() {
    let a = fe2o3::packets::PlayerAbilities::default_abilities();
    assert_eq!(f32::from_bits(a.flying_speed), 0.05);
    assert_eq!(f32::from_bits(a.fov_modifier), 0.1);
    let l = loc(1.0, 2.0, 3.0);
    let s = fe2o3::packets::SynchronizePlayerPosition::new(&l, 9);
    assert_eq!((s.x, s.flags, s.teleport_id), (1.0f64.to_bits(), 0, VarInt(9)));
}

#[test]
fn entering_play() {
    let mut p = Player::new("alex".to_string(), 7, "en_us".to_string(), MainHand::Right, 1, 10);
    p.update_view_distance(6);
    let chunk = Chunk::flat_generation();
    assert!(!p.has_teleport(99));
    let login = p.enter_play(99, &chunk).unwrap();
    assert_eq!(login.view_distance, VarInt(6));
    assert_eq!(p.state(), PlayerState::PLAY);
    assert_eq!(p.game_mode(), GameMode::Creative);
    assert!(p.has_teleport(99));
    let q = p.drain_outbox();
    assert_eq!(q.len(), 2 + 36 + 1);
    assert_eq!(q[0].id, 0x2B);
    assert_eq!(q[1].id, 0x38);
    assert_eq!(q[2].payload[..8], [0xFF, 0xFF, 0xFF, 0xFD, 0xFF, 0xFF, 0xFF, 0xFD]);
    assert_eq!(q[38].id, 0x22);
    assert_eq!(q[38].payload, vec![13, 0, 0, 0, 0]);
    assert!(p.enter_play(100, &chunk).is_none());
}

#[test]
fn client_information_makes_player() {
    let mut c = Connection::new(4);
    c.username = "alex".to_string();
    let info = ClientInformation {
        locale: "en_gb".to_string(), view_distance: 30, chat_mode: VarInt(2), chat_colors: false,
        displayed_skin_parts: 0, main_hand: VarInt(0), text_filtering: true, allow_server_listing: false,
    };
    c.apply_client_information(&info);
    assert_eq!(c.chat_settings.mode, ChatMode::Hidden);
    assert!(!c.chat_settings.show_colors);
    let p = Player::from_client_information(&c, info, 12);
    assert_eq!(p.view_distance(), 12);
    assert_eq!(p.state(), PlayerState::CONFIGURATION);
    let info2 = ClientInformation {
        locale: "en_gb".to_string(), view_distance: -3, chat_mode: VarInt(0), chat_colors: true,
        displayed_skin_parts: 0, main_hand: VarInt(1), text_filtering: false, allow_server_listing: true,
    };
    assert_eq!(Player::from_client_information(&c, info2, 12).view_distance(), 0);
}

#[test]
fn status_and_login_acknowledged() {
    let reply = fe2o3::status::status_reply(3);
    assert_eq!(reply.response, "{\"version\":{\"name\":\"1.21.1\",\"protocol\":767},\"players\":{\"max\":100,\"online\":3},\"description\":{\"text\":\"A fe2o3 server\"},\"enforcesSecureChat\":false}");
    let mut c = Connection::new(1);
    let regs = vec![fe2o3::json_nbt::RegistryData { registry_id: Identifier::new("minecraft", "x"), entries: vec![] }];
    assert!(c.handle_login_acknowledged(&regs).is_empty());
    assert_eq!(c.state, PlayerState::HANDSHAKE);
    c.state = PlayerState::LOGIN;
    let out = c.handle_login_acknowledged(&regs);
    assert_eq!(c.state, PlayerState::CONFIGURATION);
    assert_eq!(out.len(), 1);
    assert_eq!(out[0].id, 0x07);
    assert_eq!(out[0].payload, vec![11, b'm', b'i', b'n', b'e', b'c', b'r', b'a', b'f', b't', b':', b'x', 0]);
}

#[test]
fn teleport_syncs_and_escaped_json() {
    let mut p = Player::new("alex".to_string(), 7, "en_us".to_string(), MainHand::Right, 1, 10);
    assert!(p.teleport(loc(1.0, 2.0, 3.0), 4));
    p.queue_teleport_syncs();
    let q = p.drain_outbox();
    assert_eq!(q.len(), 1);
    assert_eq!(q[0].id, 0x40);
    let mut expected = Vec::new();
    fe2o3::packets::SynchronizePlayerPosition::new(&loc(1.0, 2.0, 3.0), 4).serialize(&mut expected);
    assert_eq!(q[0].payload, expected);
    p.queue_teleport_syncs();
    assert_eq!(p.drain_outbox().len(), 0);
    assert_eq!(p.teleport_acknowledge(4), Some(loc(1.0, 2.0, 3.0)));
    assert_eq!(Component::new("a\"b\\c\n").to_json(), "{\"text\":\"a\\\"b\\\\c\\u000a\"}");
}

#[test]
fn component_nbt_carries_children() {
    let mut c = Component::new("a");
    c.append(Component::new_with_color("b", TextColor::Red));
    let doc = fe2o3::nbt::NBT::new_network(c.to_nbt());
    assert_eq!(doc.root_tag, fe2o3::nbt::NBTTag::Compound(vec![
        ("text".to_string(), fe2o3::nbt::NBTTag::String("a".to_string())),
        ("extra".to_string(), fe2o3::nbt::NBTTag::List(vec![fe2o3::nbt::NBTTag::Compound(vec![
            ("text".to_string(), fe2o3::nbt::NBTTag::String("b".to_string())),
            ("color".to_string(), fe2o3::nbt::NBTTag::String("red".to_string())),
        ])])),
    ]));
}

#[test]
fn status_request_answered_once() {
    let mut c = Connection::new(2);
    assert!(c.handle_status_request(0).is_none());
    c.state = PlayerState::STATUS;
    let p = c.handle_status_request(5).unwrap();
    assert_eq!(p.id, 0x00);
    let mut expected = Vec::new();
    fe2o3::status::status_reply(5).serialize(&mut expected);
    assert_eq!(p.payload, expected);
}
