use std::io::Write;
use fe2o3::codec::CodecError;
use fe2o3::framing::{read_frame, read_frames, write_envelope, write_outbound, FrameError};
use fe2o3::nbt::{NBTTag, NBT};
use fe2o3::types::{Identifier, Position};
use fe2o3::varint::{VarInt, VarLong};
use fe2o3::wire::{Deserializable, Serializable};

fn varint_bytes(v: i32) -> Vec<u8> {
    let mut out = Vec::new();
    VarInt(v).encode(&mut out);
    out
}

#[test]
fn varint_boundaries() {
    assert_eq!(varint_bytes(0), vec![0x00]);
    assert_eq!(varint_bytes(127), vec![0x7F]);
    assert_eq!(varint_bytes(128), vec![0x80, 0x01]);
    assert_eq!(varint_bytes(-1), vec![0xFF, 0xFF, 0xFF, 0xFF, 0x0F]);
    assert_eq!(varint_bytes(255), vec![0xFF, 0x01]);
    assert_eq!(varint_bytes(2147483647), vec![0xFF, 0xFF, 0xFF, 0xFF, 0x07]);
    assert_eq!(varint_bytes(-2147483648), vec![0x80, 0x80, 0x80, 0x80, 0x08]);
}

#[test]
fn varint_six_continuation_bytes_overflow() {
    let bytes = [0x80u8, 0x80, 0x80, 0x80, 0x80, 0x00];
    assert_eq!(VarInt::decode(&bytes, 0), Err(CodecError::VarIntOverflow));
}

#[test]
fn varint_truncated() {
    let bytes = [0x80u8, 0x80];
    assert_eq!(VarInt::decode(&bytes, 0), Err(CodecError::Truncated));
}

#[test]
fn varint_round_trip_values() {
    for v in [0, 1, -1, 127, 128, 300, 25565, -2147483648, 2147483647, 767] {
        let mut bytes = varint_bytes(v);
        let n = bytes.len();
        bytes.push(0xAB);
        assert_eq!(VarInt::decode(&bytes, 0), Ok((VarInt(v), n)));
    }
}

#[test]
fn varlong_round_trip_values() {
    for v in [0i64, 1, -1, 127, 128, i64::MIN, i64::MAX, 1 << 40] {
        let mut bytes = Vec::new();
        VarLong(v).encode(&mut bytes);
        assert!(bytes.len() <= 10);
        let n = bytes.len();
        assert_eq!(VarLong::decode(&bytes, 0), Ok((VarLong(v), n)));
    }
    let mut minus_one = Vec::new();
    VarLong(-1).encode(&mut minus_one);
    assert_eq!(minus_one, vec![0xFF, 0xFF, 0xFF, 0xFF, 0xFF, 0xFF, 0xFF, 0xFF, 0xFF, 0x01]);
}

#[test]
fn big_endian_scalars() {
    let mut out = Vec::new();
    0x1234u16.serialize(&mut out);
    (-2i32).serialize(&mut out);
    0x0102030405060708u64.serialize(&mut out);
    assert_eq!(out, vec![0x12, 0x34, 0xFF, 0xFF, 0xFF, 0xFE, 1, 2, 3, 4, 5, 6, 7, 8]);
    assert_eq!(<u16 as Deserializable>::deserialize(&out, 0), Ok((0x1234u16, 2)));
    assert_eq!(<i32 as Deserializable>::deserialize(&out, 2), Ok((-2i32, 6)));
    assert_eq!(<u64 as Deserializable>::deserialize(&out, 6), Ok((0x0102030405060708u64, 14)));
    assert_eq!(<i64 as Deserializable>::deserialize(&out, 8), Err(CodecError::Truncated));
}

#[test]
fn string_wire_counts_bytes() {
    let mut out = Vec::new();
    "héllo".to_string().serialize(&mut out);
    assert_eq!(out[0], 6);
    assert_eq!(out.len(), 7);
    let (s, end) = <String as Deserializable>::deserialize(&out, 0).unwrap();
    assert_eq!(s, "héllo");
    assert_eq!(end, 7);
    let bad = [2u8, 0xC3, 0x28];
    assert_eq!(<String as Deserializable>::deserialize(&bad, 0), Err(CodecError::BadUtf8));
}

#[test]
fn position_packing() {
    let p = Position::new(1, 2, 3);
    let packed = p.pack();
    assert_eq!(packed, (1u64 << 38) | (3u64 << 12) | 2);
    let back = Position::unpack(packed);
    assert_eq!((back.x, back.y, back.z), (1, 2, 3));
    let n = Position::new(-5, -7, -33554432);
    let back = Position::unpack(n.pack());
    assert_eq!((back.x, back.y, back.z), (-5, -7, -33554432));
}

#[test]
fn identifier_parsing() {
    let a = Identifier::from_text("minecraft:brand");
    assert_eq!((a.namespace.as_str(), a.key.as_str()), ("minecraft", "brand"));
    let b = Identifier::from_text("stone");
    assert_eq!((b.namespace.as_str(), b.key.as_str()), ("minecraft", "stone"));
    let c = Identifier::from_text("a:b:c");
    assert_eq!((c.namespace.as_str(), c.key.as_str()), ("minecraft", "null"));
    assert_eq!(Identifier::new("ns", "key").to_text(), "ns:key");
    let mut out = Vec::new();
    Identifier::new("fe", "brand").serialize(&mut out);
    assert_eq!(out, vec![8, b'f', b'e', b':', b'b', b'r', b'a', b'n', b'd']);
    let (id, end) = <Identifier as Deserializable>::deserialize(&out, 0).unwrap();
    assert_eq!(id, Identifier::new("fe", "brand"));
    assert_eq!(end, 9);
}

fn sample_doc() -> NBT {
    NBT::new("hello world", NBTTag::Compound(vec![("name".to_string(), NBTTag::String("Bananrama".to_string()))]))
}

#[test]
fn test_nbt_save() {
    let nbt = sample_doc();
    let serialize = nbt.as_bytes().unwrap();
    assert_eq!(serialize, vec![0x0a, 0x00, 0x0b, 0x68, 0x65, 0x6c, 0x6c, 0x6f, 0x20, 0x77, 0x6f, 0x72, 0x6c, 0x64, 0x08, 0x00, 0x04, 0x6e, 0x61, 0x6d, 0x65, 0x00, 0x09, 0x42, 0x61, 0x6e, 0x61, 0x6e, 0x72, 0x61, 0x6d, 0x61, 0x00]);
}

#[test]
fn nbt_document_round_trip() {
    let bytes = sample_doc().as_bytes().unwrap();
    assert_eq!(bytes.len(), 33);
    let back = NBT::from_bytes(&bytes, false).unwrap().unwrap();
    assert_eq!(back, sample_doc());
}

fn every_variant() -> NBTTag {
    NBTTag::Compound(vec![
        ("b".to_string(), NBTTag::Byte(-3)),
        ("s".to_string(), NBTTag::Short(-300)),
        ("i".to_string(), NBTTag::Int(123456)),
        ("l".to_string(), NBTTag::Long(-1 << 40)),
        ("f".to_string(), NBTTag::Float(1.5f32.to_bits())),
        ("d".to_string(), NBTTag::Double((-2.25f64).to_bits())),
        ("ba".to_string(), NBTTag::ByteArray(vec![1, 2, 3])),
        ("str".to_string(), NBTTag::String("ünï".to_string())),
        ("list".to_string(), NBTTag::List(vec![NBTTag::Int(1), NBTTag::Int(2)])),
        ("nested".to_string(), NBTTag::List(vec![
            NBTTag::Compound(vec![("x".to_string(), NBTTag::List(vec![]))]),
            NBTTag::Compound(vec![]),
        ])),
        ("ia".to_string(), NBTTag::IntArray(vec![-1, 0, 1])),
        ("la".to_string(), NBTTag::LongArray(vec![i64::MIN, i64::MAX])),
    ])
}

#[test]
fn nbt_every_variant_round_trip() {
    let tag = every_variant();
    let bytes = tag.as_bytes().unwrap();
    let (back, end) = NBTTag::from_bytes(&bytes, 0, 10).unwrap();
    assert_eq!(back, tag);
    assert_eq!(end, bytes.len());
    let doc = NBT::new_network(every_variant());
    let bytes = doc.as_bytes().unwrap();
    assert_eq!(NBT::from_bytes(&bytes, true).unwrap().unwrap(), NBT::new_network(every_variant()));
}

#[test]
fn nbt_mixed_list_is_refused() {
    let tag = NBTTag::List(vec![NBTTag::Int(1), NBTTag::Byte(2)]);
    assert_eq!(tag.as_bytes(), Err(CodecError::MixedListTypes));
    let nested = NBTTag::Compound(vec![("l".to_string(), NBTTag::List(vec![NBTTag::String("a".to_string()), NBTTag::Long(1)]))]);
    assert_eq!(nested.as_bytes(), Err(CodecError::MixedListTypes));
    let ok = NBTTag::List(vec![NBTTag::Short(1), NBTTag::Short(2)]);
    let bytes = ok.as_bytes().unwrap();
    assert_eq!(bytes, vec![2, 0, 0, 0, 2, 0, 1, 0, 2]);
}

#[test]
fn nbt_decode_errors() {
    assert_eq!(NBTTag::from_bytes(&[0, 0], 0, 13), Err(CodecError::BadTagId(13)));
    assert_eq!(NBTTag::from_bytes(&[0xFF, 0xFF, 0xFF, 0xFF], 0, 7), Err(CodecError::NegativeLength));
    assert_eq!(NBTTag::from_bytes(&[0, 2, 0xC3, 0x28], 0, 8), Err(CodecError::BadUtf8));
    assert_eq!(NBTTag::from_bytes(&[0, 0], 0, 3), Err(CodecError::Truncated));
    assert_eq!(NBT::from_bytes(&[0], true), Ok(None));
    assert_eq!(NBT::from_bytes(&[0x78, 0x9C, 0, 1], true), Err(CodecError::InflateFailed));
}

#[test]
fn nbt_get_finds_first_entry() {
    let tag = NBTTag::Compound(vec![
        ("a".to_string(), NBTTag::Int(1)),
        ("b".to_string(), NBTTag::Int(2)),
        ("a".to_string(), NBTTag::Int(3)),
    ]);
    assert_eq!(tag.get("a"), Some(&NBTTag::Int(1)));
    assert_eq!(tag.get("b"), Some(&NBTTag::Int(2)));
    assert_eq!(tag.get("c"), None);
    assert_eq!(NBTTag::Int(1).get("a"), None);
}

#[test]
fn nbt_zlib_wrapped_document() {
    let bytes = sample_doc().as_bytes().unwrap();
    let mut enc = flate2::write::ZlibEncoder::new(Vec::new(), flate2::Compression::default());
    enc.write_all(&bytes).unwrap();
    let packed = enc.finish().unwrap();
    assert_eq!(NBT::from_bytes(&packed, false).unwrap().unwrap(), sample_doc());
    let mut gz = flate2::write::GzEncoder::new(Vec::new(), flate2::Compression::default());
    gz.write_all(&bytes).unwrap();
    let packed = gz.finish().unwrap();
    assert_eq!(NBT::from_bytes(&packed, false).unwrap().unwrap(), sample_doc());
}

#[test]
fn framing_uncompressed_stream() {
    let mut stream = Vec::new();
    stream.extend(write_envelope(0, &[1, 2, 3], None).unwrap());
    stream.extend(write_envelope(300, &[], None).unwrap());
    stream.extend(write_envelope(5, &[9; 200], None).unwrap());
    let (frames, consumed, stop) = read_frames(&stream, None);
    assert_eq!(frames.len(), 3);
    assert_eq!(consumed, stream.len());
    assert_eq!(stop, None);
    assert_eq!((frames[0].id, frames[0].payload.clone()), (0, vec![1, 2, 3]));
    assert_eq!((frames[1].id, frames[1].payload.clone()), (300, vec![]));
    assert_eq!((frames[2].id, frames[2].payload.len()), (5, 200));
}

#[test]
fn framing_partial_envelope_needs_more() {
    let env = write_envelope(7, &[1, 2, 3, 4], None).unwrap();
    let (frames, consumed, stop) = read_frames(&env[..3], None);
    assert_eq!(frames.len(), 0);
    assert_eq!(consumed, 0);
    assert_eq!(stop, Some(FrameError::NeedMore));
    let mut two = env.clone();
    two.extend(&env[..2]);
    let (frames, consumed, stop) = read_frames(&two, None);
    assert_eq!(frames.len(), 1);
    assert_eq!(consumed, env.len());
    assert_eq!(stop, Some(FrameError::NeedMore));
}

#[test]
fn framing_compressed_threshold() {
    let small = write_envelope(1, &[7; 9], Some(50)).unwrap();
    // length, data_length 0, then id and payload as they are
    assert_eq!(small[1], 0);
    assert_eq!(small.len(), 1 + 1 + 10);
    assert_eq!(&small[2..], &[1, 7, 7, 7, 7, 7, 7, 7, 7, 7][..]);
    let (f, end) = read_frame(&small, 0, Some(50)).unwrap();
    assert_eq!((f.id, f.payload, end), (1, vec![7; 9], small.len()));

    let big = write_envelope(1, &[7; 199], Some(50)).unwrap();
    let (frame_len, h) = VarInt::decode(&big, 0).unwrap();
    assert_eq!(frame_len.0 as usize, big.len() - h);
    let (data_len, _) = VarInt::decode(&big, h).unwrap();
    assert_eq!(data_len.0, 200);
    assert!(big.len() < 200);
    let (f, end) = read_frame(&big, 0, Some(50)).unwrap();
    assert_eq!((f.id, f.payload, end), (1, vec![7; 199], big.len()));
}

#[test]
fn framing_set_compression_stays_plain() {
    let plain = write_outbound(3, &[50], Some(50), true).unwrap();
    assert_eq!(plain, vec![2, 3, 50]);
    let compressed = write_outbound(2, &[1], Some(50), false).unwrap();
    assert_eq!(compressed, vec![3, 0, 2, 1]);
    let none = write_outbound(2, &[1], None, false).unwrap();
    assert_eq!(none, vec![2, 2, 1]);
}

#[test]
fn framing_malformed_and_bad_inflate() {
    let bad = [5u8, 3, 0x78, 0x9C, 0, 0];
    assert_eq!(read_frame(&bad, 0, Some(1)).err(), Some(FrameError::Malformed(CodecError::InflateFailed)));
    let neg = [0xFFu8, 0xFF, 0xFF, 0xFF, 0x0F];
    assert_eq!(read_frame(&neg, 0, None).err(), Some(FrameError::Malformed(CodecError::NegativeLength)));
}
