use fe2o3::codec::{CodecError, ToU64};
use fe2o3::json_nbt::JsonNode;
use fe2o3::nbt::{NBTTag, NBT};
use fe2o3::player::{MainHand, Nameable, Player};
use fe2o3::protocol::StateEvent;
use fe2o3::text::{Component, TextColor};
use fe2o3::types::{DeathLocation, Identifier, Position};
use fe2o3::wire::{Buffer, Queue, Serializable};
use fe2o3::world::Chunk;

#[test]
fn json_converts_to_nbt() {
    let json = JsonNode::Object(vec![
        ("flag".to_string(), JsonNode::Boolean(true)),
        ("small".to_string(), JsonNode::Integer(5)),
        ("big".to_string(), JsonNode::Integer(2147483647)),
        ("neg".to_string(), JsonNode::Integer(-3_000_000_000)),
        ("half".to_string(), JsonNode::Fraction(0.5f64.to_bits())),
        ("name".to_string(), JsonNode::Text("x".to_string())),
        ("ints".to_string(), JsonNode::Array(vec![JsonNode::Integer(1), JsonNode::Integer(2)])),
        ("empty".to_string(), JsonNode::Array(vec![])),
    ]);
    let tag = json.to_nbt().unwrap();
    assert_eq!(tag, NBTTag::Compound(vec![
        ("flag".to_string(), NBTTag::Byte(1)),
        ("small".to_string(), NBTTag::Int(5)),
        ("big".to_string(), NBTTag::Long(2147483647)),
        ("neg".to_string(), NBTTag::Long(-3_000_000_000)),
        ("half".to_string(), NBTTag::Double(0.5f64.to_bits())),
        ("name".to_string(), NBTTag::String("x".to_string())),
        ("ints".to_string(), NBTTag::List(vec![NBTTag::Int(1), NBTTag::Int(2)])),
        ("empty".to_string(), NBTTag::List(vec![])),
    ]));
    assert_eq!(JsonNode::Array(vec![JsonNode::Integer(1), JsonNode::Text("a".to_string())]).to_nbt(), None);
    assert_eq!(JsonNode::Null.to_nbt(), None);
    assert_eq!(NBT::from_json(&JsonNode::Integer(1), true), None);
    let doc = NBT::from_json(&JsonNode::Object(vec![]), true).unwrap();
    assert_eq!(doc, NBT::new_network(NBTTag::Compound(vec![])));
}

#[test]
fn registry_documents_split() {
    let json = JsonNode::Object(vec![(
        "minecraft:wolf_variant".to_string(),
        JsonNode::Object(vec![
            ("minecraft:pale".to_string(), JsonNode::Object(vec![("angry".to_string(), JsonNode::Text("a".to_string()))])),
            ("ashen".to_string(), JsonNode::Object(vec![])),
        ]),
    )]);
    let (reg, entries) = NBT::from_registry(&json, true).unwrap();
    assert_eq!(reg, Identifier::new("minecraft", "wolf_variant"));
    assert_eq!(entries.len(), 2);
    assert_eq!(entries[0].0, Identifier::new("minecraft", "pale"));
    assert_eq!(entries[1].0, Identifier::new("minecraft", "ashen"));
    assert_eq!(entries[0].1.root_tag, NBTTag::Compound(vec![("angry".to_string(), NBTTag::String("a".to_string()))]));
    assert!(NBT::from_registry(&JsonNode::Object(vec![]), true).is_none());
}

#[test]
fn queue_and_buffer() {
    let mut q = Queue::new(vec![0, 5, 0xC3, 0xA9, b'x', 1, 2]);
    assert_eq!(q.bytes_left(), 7);
    assert_eq!(q.pop::<u16>(), Some(5));
    assert_eq!(q.pop_str(3), Some("éx".to_string()));
    assert_eq!(q.pop_str(5), None);
    assert_eq!(q.bytes_left(), 2);
    assert_eq!(q.pop::<u32>(), None);
    assert_eq!(q.into_bytes(), vec![1, 2]);
    let mut b = Buffer::new();
    b.write(&7i32);
    b.write(&"hi".to_string());
    assert_eq!(b.buffer, vec![0, 0, 0, 7, 2, b'h', b'i']);
    assert_eq!(b.cursor, 7);
    b.cursor = 0;
    assert_eq!(b.has_space_left(7), Ok(()));
    assert_eq!(b.has_space_left(9), Err(2));
    assert_eq!(b.read::<i32>(), Ok(7));
    assert_eq!(b.read::<String>(), Ok("hi".to_string()));
    assert_eq!(b.read::<u8>(), Err(CodecError::Truncated));
    b.cursor = 1;
    b.write(&0xFFFFu16);
    assert_eq!(b.cursor, 3);
    assert_eq!(b.buffer, vec![0, 0xFF, 0xFF, 7, 2, b'h', b'i']);
}

#[test]
fn to_u64_sign_extends() {
    assert_eq!((-1i8).transmute_to_u64(), u64::MAX);
    assert_eq!((-2i32).transmute_to_u64(), u64::MAX - 1);
    assert_eq!(200u8.transmute_to_u64(), 200);
    assert_eq!(i64::MIN.transmute_to_u64(), 1u64 << 63);
}

#[test]
fn player_names_and_kick() {
    let mut p = Player::new("alex".to_string(), 1, "en_us".to_string(), MainHand::Right, 3, 10);
    assert_eq!(p.name(), "alex");
    assert_eq!(p.display_name(), "alex");
    p.set_display_name("Alex the Great".to_string());
    assert_eq!(p.display_name(), "Alex the Great");
    assert_eq!(p.name(), "alex");
    assert!(p.kick(&Component::new_with_color("bye", TextColor::Red)));
    let q = p.drain_outbox();
    assert_eq!(q[0].id, 0x02);
    let expected = NBT::new_network(NBTTag::Compound(vec![
        ("text".to_string(), NBTTag::String("bye".to_string())),
        ("color".to_string(), NBTTag::String("red".to_string())),
    ])).as_bytes().unwrap();
    assert_eq!(q[0].payload, expected);
    assert_eq!(p.apply_event(StateEvent::AcknowledgeFinishConfiguration), Ok(()));
    assert!(p.kick(&Component::new("later")));
    assert_eq!(p.drain_outbox()[0].id, 0x1D);
}

#[test]
fn death_location_wire() {
    let d = DeathLocation { dimension: Identifier::new("a", "b"), position: Position::new(1, 2, 3) };
    let mut out = Vec::new();
    d.serialize(&mut out);
    assert_eq!(out[..4], [3, b'a', b':', b'b']);
    assert_eq!(u64::from_be_bytes(out[4..12].try_into().unwrap()), (1u64 << 38) | (3u64 << 12) | 2);
}

#[test]
fn flat_chunk_section_data() {
    let chunk = Chunk::flat_generation();
    let data = chunk.packet_payload(0, 0);
    // heightmaps: compound id, two long arrays of 37 words each
    assert_eq!(data[8], 10);
    assert!(data.len() > 8 + 2 * (37 * 8));
}

#[test]
fn registry_packet_wire() {
    let docs = vec![
        (Identifier::new("minecraft", "a"), NBT::new_network(NBTTag::Compound(vec![("x".to_string(), NBTTag::Byte(1))]))),
        (Identifier::new("minecraft", "b"), NBT::new("named", NBTTag::Compound(vec![]))),
    ];
    let packet = fe2o3::json_nbt::RegistryData::from_documents(Identifier::new("minecraft", "reg"), docs).unwrap();
    assert_eq!(packet.entries.len(), 2);
    assert_eq!(packet.entries[0].data, Some(vec![10, 1, 0, 1, b'x', 1, 0]));
    assert_eq!(packet.entries[1].data, Some(vec![10, 0]));
    let mut out = Vec::new();
    packet.serialize(&mut out);
    let mut expected = Vec::new();
    Identifier::new("minecraft", "reg").serialize(&mut expected);
    expected.push(2);
    Identifier::new("minecraft", "a").serialize(&mut expected);
    expected.extend([1, 10, 1, 0, 1, b'x', 1, 0]);
    Identifier::new("minecraft", "b").serialize(&mut expected);
    expected.extend([1, 10, 0]);
    assert_eq!(out, expected);
    let mixed = vec![(Identifier::new("m", "c"), NBT::new_network(NBTTag::List(vec![NBTTag::Int(1), NBTTag::Byte(1)])))];
    assert!(fe2o3::json_nbt::RegistryData::from_documents(Identifier::new("m", "r"), mixed).is_none());
}

#[test]
fn nbt_fits_checks_lengths() {
    assert!(NBTTag::String("short".to_string()).fits());
    assert!(!NBTTag::String("x".repeat(70000)).fits());
    assert!(!NBTTag::Compound(vec![("y".repeat(70000), NBTTag::Byte(0))]).fits());
    assert!(NBT::new("n", NBTTag::List(vec![NBTTag::String("z".to_string())])).fits());
}

#[test]
fn json_null_is_end() {
    let obj = JsonNode::Object(vec![
        ("a".to_string(), JsonNode::Null),
        ("b".to_string(), JsonNode::Integer(2)),
    ]);
    assert_eq!(obj.to_nbt(), Some(NBTTag::Compound(vec![("b".to_string(), NBTTag::Int(2))])));
    assert_eq!(JsonNode::Array(vec![JsonNode::Null, JsonNode::Null]).to_nbt(), Some(NBTTag::List(vec![])));
    assert_eq!(JsonNode::Array(vec![JsonNode::Null, JsonNode::Integer(1)]).to_nbt(), None);
    let reg = JsonNode::Object(vec![(
        "minecraft:chat_type".to_string(),
        JsonNode::Object(vec![("minecraft:chat".to_string(), JsonNode::Object(vec![("narration".to_string(), JsonNode::Null)]))]),
    )]);
    let (_, entries) = NBT::from_registry(&reg, true).unwrap();
    assert_eq!(entries[0].1, NBT::new_network(NBTTag::Compound(vec![])));
    let (_, disk) = NBT::from_registry(&reg, false).unwrap();
    assert!(disk[0].1.root_name.is_some());
    let bad = JsonNode::Object(vec![("r".to_string(), JsonNode::Object(vec![("x".to_string(), JsonNode::Integer(1))]))]);
    assert!(NBT::from_registry(&bad, true).is_none());
}

#[test]
fn queue_and_buffer_short_reads() {
    let mut q = Queue::new(vec![1, 2, 3]);
    assert_eq!(q.pop::<u32>(), None);
    assert_eq!(q.bytes_left(), 3);
    let mut b = Buffer::from_bytes(&[0x80, 0x80, 0x80, 0x80, 0x80, 0x00]);
    assert_eq!(b.read::<fe2o3::varint::VarInt>(), Err(CodecError::VarIntOverflow));
    assert_eq!(b.cursor, 0);
    let mut p = Buffer::from_bytes(&((1u64 << 38) | (3u64 << 12) | 2u64).to_be_bytes());
    let pos = p.read::<Position>().unwrap();
    assert_eq!((pos.x, pos.y, pos.z, p.cursor), (1, 2, 3, 8));
}

#[test]
fn text_component_builder() {
    let c = fe2o3::text_component::TextComponent::text("hi".to_string())
        .bold()
        .not_italic()
        .with_color(TextColor::Gold)
        .shift_click("/hi".to_string())
        .on_click(fe2o3::text_component::ClickEvent::RunCommand("/hi".to_string()))
        .append(fe2o3::text_component::TextComponent::keybind("key.jump".to_string()));
    assert!(c.bold);
    assert!(!c.italic);
    assert_eq!(c.explicit_flags, 0x3);
    assert_eq!(c.color, Some(TextColor::Gold));
    assert_eq!(c.insertion, Some("/hi".to_string()));
    assert_eq!(c.extra.as_ref().map(|v| v.len()), Some(1));
    let s = fe2o3::text_component::TextComponent::scoreboard("a".to_string(), "b".to_string()).obfuscated();
    assert_eq!(s.explicit_flags, 0x10);
}
