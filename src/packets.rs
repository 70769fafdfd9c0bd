//! The packets of each phase: their fields in wire order, their ids, and for inbound ones
//! the decoder that reads them back.
use vstd::prelude::*;
use crate::codec::CodecError;
use crate::types::{ByteArrayInferredLength, ByteArrayPrefixedLength, Identifier, OptionalByteArray};
use crate::varint::VarInt;
use crate::wire::{starts_with_at, Deserializable, Serializable};
use crate::nbt::lemma_starts_with_split;

verus! {

/// A packet with a fixed id in its phase and direction.
pub trait Packet: Serializable {
    spec fn spec_id(&self) -> i32;

    fn id(&self) -> (r: i32)
        ensures
            r == self.spec_id(),
    ;
}

/// The first packet of every connection: the protocol version, the address and port the client used, and the phase it asks for (1 status, 2 login, 3 transfer).
#[derive(Debug, Clone, PartialEq, Eq)]
pub struct Handshake {
    pub protocol_version: VarInt,
    pub address: String,
    pub port: u16,
    pub next_state: VarInt,
}

impl Packet for Handshake {
    open spec fn spec_id(&self) -> i32 {
        0x00
    }

    fn id(&self) -> (r: i32) {
        0x00
    }
}

impl Serializable for Handshake {
    open spec fn wire(&self) -> Seq<u8> {
        self.protocol_version.wire() + self.address.wire() + self.port.wire() + self.next_state.wire()
    }

    open spec fn encodable(&self) -> bool {
        self.protocol_version.encodable() && self.address.encodable() && self.port.encodable() && self.next_state.encodable()
    }

    fn serialize(&self, out: &mut Vec<u8>) {
        self.protocol_version.serialize(out);
        self.address.serialize(out);
        self.port.serialize(out);
        self.next_state.serialize(out);
        assert(out@ =~= old(out)@ + self.wire());
    }
}

impl Handshake {
    /// Reads this packet from a frame's payload. The payload of any encodable packet of
    /// this kind reads back as a packet with the same wire form.
    pub fn decode(data: &[u8]) -> (r: Result<Handshake, CodecError>)
        ensures
            forall|v: Handshake| v.encodable() && #[trigger] v.wire() == data@ ==> (r matches Ok(w) && w.wire() == v.wire()),
    {
        let pos: usize = 0;
        proof {
            assert forall|v: Handshake| v.encodable() && #[trigger] v.wire() == data@ implies starts_with_at(data@, pos as int, v.protocol_version.wire()) && starts_with_at(data@, pos + v.protocol_version.wire().len(), v.address.wire()) && starts_with_at(data@, pos + v.protocol_version.wire().len() + v.address.wire().len(), v.port.wire()) && starts_with_at(data@, pos + v.protocol_version.wire().len() + v.address.wire().len() + v.port.wire().len(), v.next_state.wire()) by {
                assert(starts_with_at(data@, 0, v.wire())) by {
                    assert(data@.subrange(0, data@.len() as int) =~= data@);
                }
                lemma_starts_with_split(data@, pos as int, v.protocol_version.wire() + v.address.wire() + v.port.wire(), v.next_state.wire());
                lemma_starts_with_split(data@, pos as int, v.protocol_version.wire() + v.address.wire(), v.port.wire());
                lemma_starts_with_split(data@, pos as int, v.protocol_version.wire(), v.address.wire());
            }
        }
        let (f_protocol_version, p1) = match <VarInt as Deserializable>::deserialize(data, pos) {
            Ok(x) => x,
            Err(e) => {
                proof {
                    assert forall|v: Handshake| v.encodable() && #[trigger] v.wire() == data@ implies false by {
                        assert(starts_with_at(data@, pos as int, v.protocol_version.wire()));
                    }
                }
                return Err(e);
            },
        };
        proof {
            assert forall|v: Handshake| v.encodable() && #[trigger] v.wire() == data@ implies f_protocol_version.wire() == v.protocol_version.wire() && p1 == pos + v.protocol_version.wire().len() by {
                assert(starts_with_at(data@, pos as int, v.protocol_version.wire()));
            }
        }
        let (f_address, p2) = match <String as Deserializable>::deserialize(data, p1) {
            Ok(x) => x,
            Err(e) => {
                proof {
                    assert forall|v: Handshake| v.encodable() && #[trigger] v.wire() == data@ implies false by {
                        assert(starts_with_at(data@, p1 as int, v.address.wire()));
                    }
                }
                return Err(e);
            },
        };
        proof {
            assert forall|v: Handshake| v.encodable() && #[trigger] v.wire() == data@ implies f_address.wire() == v.address.wire() && p2 == p1 + v.address.wire().len() by {
                assert(starts_with_at(data@, p1 as int, v.address.wire()));
            }
        }
        let (f_port, p3) = match <u16 as Deserializable>::deserialize(data, p2) {
            Ok(x) => x,
            Err(e) => {
                proof {
                    assert forall|v: Handshake| v.encodable() && #[trigger] v.wire() == data@ implies false by {
                        assert(starts_with_at(data@, p2 as int, v.port.wire()));
                    }
                }
                return Err(e);
            },
        };
        proof {
            assert forall|v: Handshake| v.encodable() && #[trigger] v.wire() == data@ implies f_port.wire() == v.port.wire() && p3 == p2 + v.port.wire().len() by {
                assert(starts_with_at(data@, p2 as int, v.port.wire()));
            }
        }
        let (f_next_state, p4) = match <VarInt as Deserializable>::deserialize(data, p3) {
            Ok(x) => x,
            Err(e) => {
                proof {
                    assert forall|v: Handshake| v.encodable() && #[trigger] v.wire() == data@ implies false by {
                        assert(starts_with_at(data@, p3 as int, v.next_state.wire()));
                    }
                }
                return Err(e);
            },
        };
        proof {
            assert forall|v: Handshake| v.encodable() && #[trigger] v.wire() == data@ implies f_next_state.wire() == v.next_state.wire() && p4 == p3 + v.next_state.wire().len() by {
                assert(starts_with_at(data@, p3 as int, v.next_state.wire()));
            }
        }
        Ok(Handshake { protocol_version: f_protocol_version, address: f_address, port: f_port, next_state: f_next_state })
    }
}

/// Asks for the server's status.
#[derive(Debug, Clone, Copy, PartialEq, Eq)]
pub struct StatusRequest;

impl Packet for StatusRequest {
    open spec fn spec_id(&self) -> i32 {
        0x00
    }

    fn id(&self) -> (r: i32) {
        0x00
    }
}

impl Serializable for StatusRequest {
    open spec fn wire(&self) -> Seq<u8> {
        Seq::empty()
    }

    open spec fn encodable(&self) -> bool {
        true
    }

    fn serialize(&self, out: &mut Vec<u8>) {
        assert(out@ =~= old(out)@ + self.wire());
    }
}

impl StatusRequest {
    /// Reads this packet from a frame's payload. The payload of any encodable packet of
    /// this kind reads back as a packet with the same wire form.
    pub fn decode(data: &[u8]) -> (r: Result<StatusRequest, CodecError>)
        ensures
            forall|v: StatusRequest| v.encodable() && #[trigger] v.wire() == data@ ==> (r matches Ok(w) && w.wire() == v.wire()),
    {
        let pos: usize = 0;
        Ok(StatusRequest)
    }
}

/// A ping in the status phase; the reply echoes the timestamp.
#[derive(Debug, Clone, PartialEq, Eq)]
pub struct StatusPingRequest {
    pub timestamp: u64,
}

impl Packet for StatusPingRequest {
    open spec fn spec_id(&self) -> i32 {
        0x01
    }

    fn id(&self) -> (r: i32) {
        0x01
    }
}

impl Serializable for StatusPingRequest {
    open spec fn wire(&self) -> Seq<u8> {
        self.timestamp.wire()
    }

    open spec fn encodable(&self) -> bool {
        self.timestamp.encodable()
    }

    fn serialize(&self, out: &mut Vec<u8>) {
        self.timestamp.serialize(out);
        assert(out@ =~= old(out)@ + self.wire());
    }
}

impl StatusPingRequest {
    /// Reads this packet from a frame's payload. The payload of any encodable packet of
    /// this kind reads back as a packet with the same wire form.
    pub fn decode(data: &[u8]) -> (r: Result<StatusPingRequest, CodecError>)
        ensures
            forall|v: StatusPingRequest| v.encodable() && #[trigger] v.wire() == data@ ==> (r matches Ok(w) && w.wire() == v.wire()),
    {
        let pos: usize = 0;
        proof {
            assert forall|v: StatusPingRequest| v.encodable() && #[trigger] v.wire() == data@ implies starts_with_at(data@, pos as int, v.timestamp.wire()) by {
                assert(starts_with_at(data@, 0, v.wire())) by {
                    assert(data@.subrange(0, data@.len() as int) =~= data@);
                }
            }
        }
        let (f_timestamp, p1) = match <u64 as Deserializable>::deserialize(data, pos) {
            Ok(x) => x,
            Err(e) => {
                proof {
                    assert forall|v: StatusPingRequest| v.encodable() && #[trigger] v.wire() == data@ implies false by {
                        assert(starts_with_at(data@, pos as int, v.timestamp.wire()));
                    }
                }
                return Err(e);
            },
        };
        proof {
            assert forall|v: StatusPingRequest| v.encodable() && #[trigger] v.wire() == data@ implies f_timestamp.wire() == v.timestamp.wire() && p1 == pos + v.timestamp.wire().len() by {
                assert(starts_with_at(data@, pos as int, v.timestamp.wire()));
            }
        }
        Ok(StatusPingRequest { timestamp: f_timestamp })
    }
}

/// The player's name and UUID.
#[derive(Debug, Clone, PartialEq, Eq)]
pub struct LoginStart {
    pub name: String,
    pub uuid: u128,
}

impl Packet for LoginStart {
    open spec fn spec_id(&self) -> i32 {
        0x00
    }

    fn id(&self) -> (r: i32) {
        0x00
    }
}

impl Serializable for LoginStart {
    open spec fn wire(&self) -> Seq<u8> {
        self.name.wire() + self.uuid.wire()
    }

    open spec fn encodable(&self) -> bool {
        self.name.encodable() && self.uuid.encodable()
    }

    fn serialize(&self, out: &mut Vec<u8>) {
        self.name.serialize(out);
        self.uuid.serialize(out);
        assert(out@ =~= old(out)@ + self.wire());
    }
}

impl LoginStart {
    /// Reads this packet from a frame's payload. The payload of any encodable packet of
    /// this kind reads back as a packet with the same wire form.
    pub fn decode(data: &[u8]) -> (r: Result<LoginStart, CodecError>)
        ensures
            forall|v: LoginStart| v.encodable() && #[trigger] v.wire() == data@ ==> (r matches Ok(w) && w.wire() == v.wire()),
    {
        let pos: usize = 0;
        proof {
            assert forall|v: LoginStart| v.encodable() && #[trigger] v.wire() == data@ implies starts_with_at(data@, pos as int, v.name.wire()) && starts_with_at(data@, pos + v.name.wire().len(), v.uuid.wire()) by {
                assert(starts_with_at(data@, 0, v.wire())) by {
                    assert(data@.subrange(0, data@.len() as int) =~= data@);
                }
                lemma_starts_with_split(data@, pos as int, v.name.wire(), v.uuid.wire());
            }
        }
        let (f_name, p1) = match <String as Deserializable>::deserialize(data, pos) {
            Ok(x) => x,
            Err(e) => {
                proof {
                    assert forall|v: LoginStart| v.encodable() && #[trigger] v.wire() == data@ implies false by {
                        assert(starts_with_at(data@, pos as int, v.name.wire()));
                    }
                }
                return Err(e);
            },
        };
        proof {
            assert forall|v: LoginStart| v.encodable() && #[trigger] v.wire() == data@ implies f_name.wire() == v.name.wire() && p1 == pos + v.name.wire().len() by {
                assert(starts_with_at(data@, pos as int, v.name.wire()));
            }
        }
        let (f_uuid, p2) = match <u128 as Deserializable>::deserialize(data, p1) {
            Ok(x) => x,
            Err(e) => {
                proof {
                    assert forall|v: LoginStart| v.encodable() && #[trigger] v.wire() == data@ implies false by {
                        assert(starts_with_at(data@, p1 as int, v.uuid.wire()));
                    }
                }
                return Err(e);
            },
        };
        proof {
            assert forall|v: LoginStart| v.encodable() && #[trigger] v.wire() == data@ implies f_uuid.wire() == v.uuid.wire() && p2 == p1 + v.uuid.wire().len() by {
                assert(starts_with_at(data@, p1 as int, v.uuid.wire()));
            }
        }
        Ok(LoginStart { name: f_name, uuid: f_uuid })
    }
}

/// The client's answer to an encryption request.
#[derive(Debug, Clone, PartialEq, Eq)]
pub struct EncryptionResponse {
    pub shared_secret: ByteArrayPrefixedLength,
    pub shared_token: ByteArrayPrefixedLength,
}

impl Packet for EncryptionResponse {
    open spec fn spec_id(&self) -> i32 {
        0x01
    }

    fn id(&self) -> (r: i32) {
        0x01
    }
}

impl Serializable for EncryptionResponse {
    open spec fn wire(&self) -> Seq<u8> {
        self.shared_secret.wire() + self.shared_token.wire()
    }

    open spec fn encodable(&self) -> bool {
        self.shared_secret.encodable() && self.shared_token.encodable()
    }

    fn serialize(&self, out: &mut Vec<u8>) {
        self.shared_secret.serialize(out);
        self.shared_token.serialize(out);
        assert(out@ =~= old(out)@ + self.wire());
    }
}

impl EncryptionResponse {
    /// Reads this packet from a frame's payload. The payload of any encodable packet of
    /// this kind reads back as a packet with the same wire form.
    pub fn decode(data: &[u8]) -> (r: Result<EncryptionResponse, CodecError>)
        ensures
            forall|v: EncryptionResponse| v.encodable() && #[trigger] v.wire() == data@ ==> (r matches Ok(w) && w.wire() == v.wire()),
    {
        let pos: usize = 0;
        proof {
            assert forall|v: EncryptionResponse| v.encodable() && #[trigger] v.wire() == data@ implies starts_with_at(data@, pos as int, v.shared_secret.wire()) && starts_with_at(data@, pos + v.shared_secret.wire().len(), v.shared_token.wire()) by {
                assert(starts_with_at(data@, 0, v.wire())) by {
                    assert(data@.subrange(0, data@.len() as int) =~= data@);
                }
                lemma_starts_with_split(data@, pos as int, v.shared_secret.wire(), v.shared_token.wire());
            }
        }
        let (f_shared_secret, p1) = match <ByteArrayPrefixedLength as Deserializable>::deserialize(data, pos) {
            Ok(x) => x,
            Err(e) => {
                proof {
                    assert forall|v: EncryptionResponse| v.encodable() && #[trigger] v.wire() == data@ implies false by {
                        assert(starts_with_at(data@, pos as int, v.shared_secret.wire()));
                    }
                }
                return Err(e);
            },
        };
        proof {
            assert forall|v: EncryptionResponse| v.encodable() && #[trigger] v.wire() == data@ implies f_shared_secret.wire() == v.shared_secret.wire() && p1 == pos + v.shared_secret.wire().len() by {
                assert(starts_with_at(data@, pos as int, v.shared_secret.wire()));
            }
        }
        let (f_shared_token, p2) = match <ByteArrayPrefixedLength as Deserializable>::deserialize(data, p1) {
            Ok(x) => x,
            Err(e) => {
                proof {
                    assert forall|v: EncryptionResponse| v.encodable() && #[trigger] v.wire() == data@ implies false by {
                        assert(starts_with_at(data@, p1 as int, v.shared_token.wire()));
                    }
                }
                return Err(e);
            },
        };
        proof {
            assert forall|v: EncryptionResponse| v.encodable() && #[trigger] v.wire() == data@ implies f_shared_token.wire() == v.shared_token.wire() && p2 == p1 + v.shared_token.wire().len() by {
                assert(starts_with_at(data@, p1 as int, v.shared_token.wire()));
            }
        }
        Ok(EncryptionResponse { shared_secret: f_shared_secret, shared_token: f_shared_token })
    }
}

/// The client's answer to a login plugin request.
#[derive(Debug, Clone, PartialEq, Eq)]
pub struct LoginPluginResponse {
    pub message_id: VarInt,
    pub successful: bool,
    pub data: ByteArrayInferredLength,
}

impl Packet for LoginPluginResponse {
    open spec fn spec_id(&self) -> i32 {
        0x02
    }

    fn id(&self) -> (r: i32) {
        0x02
    }
}

impl Serializable for LoginPluginResponse {
    open spec fn wire(&self) -> Seq<u8> {
        self.message_id.wire() + self.successful.wire() + self.data.wire()
    }

    open spec fn encodable(&self) -> bool {
        self.message_id.encodable() && self.successful.encodable()
    }

    fn serialize(&self, out: &mut Vec<u8>) {
        self.message_id.serialize(out);
        self.successful.serialize(out);
        self.data.serialize(out);
        assert(out@ =~= old(out)@ + self.wire());
    }
}

impl LoginPluginResponse {
    /// Reads this packet from a frame's payload. The payload of any encodable packet of
    /// this kind reads back as a packet with the same wire form.
    pub fn decode(data: &[u8]) -> (r: Result<LoginPluginResponse, CodecError>)
        ensures
            forall|v: LoginPluginResponse| v.encodable() && #[trigger] v.wire() == data@ ==> (r matches Ok(w) && w.wire() == v.wire()),
    {
        let pos: usize = 0;
        proof {
            assert forall|v: LoginPluginResponse| v.encodable() && #[trigger] v.wire() == data@ implies starts_with_at(data@, pos as int, v.message_id.wire()) && starts_with_at(data@, pos + v.message_id.wire().len(), v.successful.wire()) && starts_with_at(data@, pos + v.message_id.wire().len() + v.successful.wire().len(), v.data.wire()) by {
                assert(starts_with_at(data@, 0, v.wire())) by {
                    assert(data@.subrange(0, data@.len() as int) =~= data@);
                }
                lemma_starts_with_split(data@, pos as int, v.message_id.wire() + v.successful.wire(), v.data.wire());
                lemma_starts_with_split(data@, pos as int, v.message_id.wire(), v.successful.wire());
            }
        }
        let (f_message_id, p1) = match <VarInt as Deserializable>::deserialize(data, pos) {
            Ok(x) => x,
            Err(e) => {
                proof {
                    assert forall|v: LoginPluginResponse| v.encodable() && #[trigger] v.wire() == data@ implies false by {
                        assert(starts_with_at(data@, pos as int, v.message_id.wire()));
                    }
                }
                return Err(e);
            },
        };
        proof {
            assert forall|v: LoginPluginResponse| v.encodable() && #[trigger] v.wire() == data@ implies f_message_id.wire() == v.message_id.wire() && p1 == pos + v.message_id.wire().len() by {
                assert(starts_with_at(data@, pos as int, v.message_id.wire()));
            }
        }
        let (f_successful, p2) = match <bool as Deserializable>::deserialize(data, p1) {
            Ok(x) => x,
            Err(e) => {
                proof {
                    assert forall|v: LoginPluginResponse| v.encodable() && #[trigger] v.wire() == data@ implies false by {
                        assert(starts_with_at(data@, p1 as int, v.successful.wire()));
                    }
                }
                return Err(e);
            },
        };
        proof {
            assert forall|v: LoginPluginResponse| v.encodable() && #[trigger] v.wire() == data@ implies f_successful.wire() == v.successful.wire() && p2 == p1 + v.successful.wire().len() by {
                assert(starts_with_at(data@, p1 as int, v.successful.wire()));
            }
        }
        let (f_data, p3) = ByteArrayInferredLength::deserialize(data, p2);
        proof {
            assert forall|v: LoginPluginResponse| v.encodable() && #[trigger] v.wire() == data@ implies f_data.0@ == v.data.0@ by {
                assert(starts_with_at(data@, p2 as int, v.data.wire()));
                assert(data@.subrange(p2 as int, data@.len() as int) =~= v.data.0@);
            }
        }
        Ok(LoginPluginResponse { message_id: f_message_id, successful: f_successful, data: f_data })
    }
}

/// The client acknowledges the login success and enters configuration.
#[derive(Debug, Clone, Copy, PartialEq, Eq)]
pub struct LoginAcknowledged;

impl Packet for LoginAcknowledged {
    open spec fn spec_id(&self) -> i32 {
        0x03
    }

    fn id(&self) -> (r: i32) {
        0x03
    }
}

impl Serializable for LoginAcknowledged {
    open spec fn wire(&self) -> Seq<u8> {
        Seq::empty()
    }

    open spec fn encodable(&self) -> bool {
        true
    }

    fn serialize(&self, out: &mut Vec<u8>) {
        assert(out@ =~= old(out)@ + self.wire());
    }
}

impl LoginAcknowledged {
    /// Reads this packet from a frame's payload. The payload of any encodable packet of
    /// this kind reads back as a packet with the same wire form.
    pub fn decode(data: &[u8]) -> (r: Result<LoginAcknowledged, CodecError>)
        ensures
            forall|v: LoginAcknowledged| v.encodable() && #[trigger] v.wire() == data@ ==> (r matches Ok(w) && w.wire() == v.wire()),
    {
        let pos: usize = 0;
        Ok(LoginAcknowledged)
    }
}

/// A cookie the client stored, if it has one.
#[derive(Debug, Clone, PartialEq, Eq)]
pub struct LoginCookieResponse {
    pub key: Identifier,
    pub payload: OptionalByteArray,
}

impl Packet for LoginCookieResponse {
    open spec fn spec_id(&self) -> i32 {
        0x04
    }

    fn id(&self) -> (r: i32) {
        0x04
    }
}

impl Serializable for LoginCookieResponse {
    open spec fn wire(&self) -> Seq<u8> {
        self.key.wire() + self.payload.wire()
    }

    open spec fn encodable(&self) -> bool {
        self.key.encodable() && self.payload.encodable()
    }

    fn serialize(&self, out: &mut Vec<u8>) {
        self.key.serialize(out);
        self.payload.serialize(out);
        assert(out@ =~= old(out)@ + self.wire());
    }
}

impl LoginCookieResponse {
    /// Reads this packet from a frame's payload. The payload of any encodable packet of
    /// this kind reads back as a packet with the same wire form.
    pub fn decode(data: &[u8]) -> (r: Result<LoginCookieResponse, CodecError>)
        ensures
            forall|v: LoginCookieResponse| v.encodable() && #[trigger] v.wire() == data@ ==> (r matches Ok(w) && w.wire() == v.wire()),
    {
        let pos: usize = 0;
        proof {
            assert forall|v: LoginCookieResponse| v.encodable() && #[trigger] v.wire() == data@ implies starts_with_at(data@, pos as int, v.key.wire()) && starts_with_at(data@, pos + v.key.wire().len(), v.payload.wire()) by {
                assert(starts_with_at(data@, 0, v.wire())) by {
                    assert(data@.subrange(0, data@.len() as int) =~= data@);
                }
                lemma_starts_with_split(data@, pos as int, v.key.wire(), v.payload.wire());
            }
        }
        let (f_key, p1) = match <Identifier as Deserializable>::deserialize(data, pos) {
            Ok(x) => x,
            Err(e) => {
                proof {
                    assert forall|v: LoginCookieResponse| v.encodable() && #[trigger] v.wire() == data@ implies false by {
                        assert(starts_with_at(data@, pos as int, v.key.wire()));
                    }
                }
                return Err(e);
            },
        };
        proof {
            assert forall|v: LoginCookieResponse| v.encodable() && #[trigger] v.wire() == data@ implies f_key.wire() == v.key.wire() && p1 == pos + v.key.wire().len() by {
                assert(starts_with_at(data@, pos as int, v.key.wire()));
            }
        }
        let (f_payload, p2) = match <OptionalByteArray as Deserializable>::deserialize(data, p1) {
            Ok(x) => x,
            Err(e) => {
                proof {
                    assert forall|v: LoginCookieResponse| v.encodable() && #[trigger] v.wire() == data@ implies false by {
                        assert(starts_with_at(data@, p1 as int, v.payload.wire()));
                    }
                }
                return Err(e);
            },
        };
        proof {
            assert forall|v: LoginCookieResponse| v.encodable() && #[trigger] v.wire() == data@ implies f_payload.wire() == v.payload.wire() && p2 == p1 + v.payload.wire().len() by {
                assert(starts_with_at(data@, p1 as int, v.payload.wire()));
            }
        }
        Ok(LoginCookieResponse { key: f_key, payload: f_payload })
    }
}

/// The client's settings.
#[derive(Debug, Clone, PartialEq, Eq)]
pub struct ClientInformation {
    pub locale: String,
    pub view_distance: i8,
    pub chat_mode: VarInt,
    pub chat_colors: bool,
    pub displayed_skin_parts: u8,
    pub main_hand: VarInt,
    pub text_filtering: bool,
    pub allow_server_listing: bool,
}

impl Packet for ClientInformation {
    open spec fn spec_id(&self) -> i32 {
        0x00
    }

    fn id(&self) -> (r: i32) {
        0x00
    }
}

impl Serializable for ClientInformation {
    open spec fn wire(&self) -> Seq<u8> {
        self.locale.wire() + self.view_distance.wire() + self.chat_mode.wire() + self.chat_colors.wire() + self.displayed_skin_parts.wire() + self.main_hand.wire() + self.text_filtering.wire() + self.allow_server_listing.wire()
    }

    open spec fn encodable(&self) -> bool {
        self.locale.encodable() && self.view_distance.encodable() && self.chat_mode.encodable() && self.chat_colors.encodable() && self.displayed_skin_parts.encodable() && self.main_hand.encodable() && self.text_filtering.encodable() && self.allow_server_listing.encodable()
    }

    fn serialize(&self, out: &mut Vec<u8>) {
        self.locale.serialize(out);
        self.view_distance.serialize(out);
        self.chat_mode.serialize(out);
        self.chat_colors.serialize(out);
        self.displayed_skin_parts.serialize(out);
        self.main_hand.serialize(out);
        self.text_filtering.serialize(out);
        self.allow_server_listing.serialize(out);
        assert(out@ =~= old(out)@ + self.wire());
    }
}

impl ClientInformation {
    /// Reads this packet from a frame's payload. The payload of any encodable packet of
    /// this kind reads back as a packet with the same wire form.
    pub fn decode(data: &[u8]) -> (r: Result<ClientInformation, CodecError>)
        ensures
            forall|v: ClientInformation| v.encodable() && #[trigger] v.wire() == data@ ==> (r matches Ok(w) && w.wire() == v.wire()),
    {
        let pos: usize = 0;
        proof {
            assert forall|v: ClientInformation| v.encodable() && #[trigger] v.wire() == data@ implies starts_with_at(data@, pos as int, v.locale.wire()) && starts_with_at(data@, pos + v.locale.wire().len(), v.view_distance.wire()) && starts_with_at(data@, pos + v.locale.wire().len() + v.view_distance.wire().len(), v.chat_mode.wire()) && starts_with_at(data@, pos + v.locale.wire().len() + v.view_distance.wire().len() + v.chat_mode.wire().len(), v.chat_colors.wire()) && starts_with_at(data@, pos + v.locale.wire().len() + v.view_distance.wire().len() + v.chat_mode.wire().len() + v.chat_colors.wire().len(), v.displayed_skin_parts.wire()) && starts_with_at(data@, pos + v.locale.wire().len() + v.view_distance.wire().len() + v.chat_mode.wire().len() + v.chat_colors.wire().len() + v.displayed_skin_parts.wire().len(), v.main_hand.wire()) && starts_with_at(data@, pos + v.locale.wire().len() + v.view_distance.wire().len() + v.chat_mode.wire().len() + v.chat_colors.wire().len() + v.displayed_skin_parts.wire().len() + v.main_hand.wire().len(), v.text_filtering.wire()) && starts_with_at(data@, pos + v.locale.wire().len() + v.view_distance.wire().len() + v.chat_mode.wire().len() + v.chat_colors.wire().len() + v.displayed_skin_parts.wire().len() + v.main_hand.wire().len() + v.text_filtering.wire().len(), v.allow_server_listing.wire()) by {
                assert(starts_with_at(data@, 0, v.wire())) by {
                    assert(data@.subrange(0, data@.len() as int) =~= data@);
                }
                lemma_starts_with_split(data@, pos as int, v.locale.wire() + v.view_distance.wire() + v.chat_mode.wire() + v.chat_colors.wire() + v.displayed_skin_parts.wire() + v.main_hand.wire() + v.text_filtering.wire(), v.allow_server_listing.wire());
                lemma_starts_with_split(data@, pos as int, v.locale.wire() + v.view_distance.wire() + v.chat_mode.wire() + v.chat_colors.wire() + v.displayed_skin_parts.wire() + v.main_hand.wire(), v.text_filtering.wire());
                lemma_starts_with_split(data@, pos as int, v.locale.wire() + v.view_distance.wire() + v.chat_mode.wire() + v.chat_colors.wire() + v.displayed_skin_parts.wire(), v.main_hand.wire());
                lemma_starts_with_split(data@, pos as int, v.locale.wire() + v.view_distance.wire() + v.chat_mode.wire() + v.chat_colors.wire(), v.displayed_skin_parts.wire());
                lemma_starts_with_split(data@, pos as int, v.locale.wire() + v.view_distance.wire() + v.chat_mode.wire(), v.chat_colors.wire());
                lemma_starts_with_split(data@, pos as int, v.locale.wire() + v.view_distance.wire(), v.chat_mode.wire());
                lemma_starts_with_split(data@, pos as int, v.locale.wire(), v.view_distance.wire());
            }
        }
        let (f_locale, p1) = match <String as Deserializable>::deserialize(data, pos) {
            Ok(x) => x,
            Err(e) => {
                proof {
                    assert forall|v: ClientInformation| v.encodable() && #[trigger] v.wire() == data@ implies false by {
                        assert(starts_with_at(data@, pos as int, v.locale.wire()));
                    }
                }
                return Err(e);
            },
        };
        proof {
            assert forall|v: ClientInformation| v.encodable() && #[trigger] v.wire() == data@ implies f_locale.wire() == v.locale.wire() && p1 == pos + v.locale.wire().len() by {
                assert(starts_with_at(data@, pos as int, v.locale.wire()));
            }
        }
        let (f_view_distance, p2) = match <i8 as Deserializable>::deserialize(data, p1) {
            Ok(x) => x,
            Err(e) => {
                proof {
                    assert forall|v: ClientInformation| v.encodable() && #[trigger] v.wire() == data@ implies false by {
                        assert(starts_with_at(data@, p1 as int, v.view_distance.wire()));
                    }
                }
                return Err(e);
            },
        };
        proof {
            assert forall|v: ClientInformation| v.encodable() && #[trigger] v.wire() == data@ implies f_view_distance.wire() == v.view_distance.wire() && p2 == p1 + v.view_distance.wire().len() by {
                assert(starts_with_at(data@, p1 as int, v.view_distance.wire()));
            }
        }
        let (f_chat_mode, p3) = match <VarInt as Deserializable>::deserialize(data, p2) {
            Ok(x) => x,
            Err(e) => {
                proof {
                    assert forall|v: ClientInformation| v.encodable() && #[trigger] v.wire() == data@ implies false by {
                        assert(starts_with_at(data@, p2 as int, v.chat_mode.wire()));
                    }
                }
                return Err(e);
            },
        };
        proof {
            assert forall|v: ClientInformation| v.encodable() && #[trigger] v.wire() == data@ implies f_chat_mode.wire() == v.chat_mode.wire() && p3 == p2 + v.chat_mode.wire().len() by {
                assert(starts_with_at(data@, p2 as int, v.chat_mode.wire()));
            }
        }
        let (f_chat_colors, p4) = match <bool as Deserializable>::deserialize(data, p3) {
            Ok(x) => x,
            Err(e) => {
                proof {
                    assert forall|v: ClientInformation| v.encodable() && #[trigger] v.wire() == data@ implies false by {
                        assert(starts_with_at(data@, p3 as int, v.chat_colors.wire()));
                    }
                }
                return Err(e);
            },
        };
        proof {
            assert forall|v: ClientInformation| v.encodable() && #[trigger] v.wire() == data@ implies f_chat_colors.wire() == v.chat_colors.wire() && p4 == p3 + v.chat_colors.wire().len() by {
                assert(starts_with_at(data@, p3 as int, v.chat_colors.wire()));
            }
        }
        let (f_displayed_skin_parts, p5) = match <u8 as Deserializable>::deserialize(data, p4) {
            Ok(x) => x,
            Err(e) => {
                proof {
                    assert forall|v: ClientInformation| v.encodable() && #[trigger] v.wire() == data@ implies false by {
                        assert(starts_with_at(data@, p4 as int, v.displayed_skin_parts.wire()));
                    }
                }
                return Err(e);
            },
        };
        proof {
            assert forall|v: ClientInformation| v.encodable() && #[trigger] v.wire() == data@ implies f_displayed_skin_parts.wire() == v.displayed_skin_parts.wire() && p5 == p4 + v.displayed_skin_parts.wire().len() by {
                assert(starts_with_at(data@, p4 as int, v.displayed_skin_parts.wire()));
            }
        }
        let (f_main_hand, p6) = match <VarInt as Deserializable>::deserialize(data, p5) {
            Ok(x) => x,
            Err(e) => {
                proof {
                    assert forall|v: ClientInformation| v.encodable() && #[trigger] v.wire() == data@ implies false by {
                        assert(starts_with_at(data@, p5 as int, v.main_hand.wire()));
                    }
                }
                return Err(e);
            },
        };
        proof {
            assert forall|v: ClientInformation| v.encodable() && #[trigger] v.wire() == data@ implies f_main_hand.wire() == v.main_hand.wire() && p6 == p5 + v.main_hand.wire().len() by {
                assert(starts_with_at(data@, p5 as int, v.main_hand.wire()));
            }
        }
        let (f_text_filtering, p7) = match <bool as Deserializable>::deserialize(data, p6) {
            Ok(x) => x,
            Err(e) => {
                proof {
                    assert forall|v: ClientInformation| v.encodable() && #[trigger] v.wire() == data@ implies false by {
                        assert(starts_with_at(data@, p6 as int, v.text_filtering.wire()));
                    }
                }
                return Err(e);
            },
        };
        proof {
            assert forall|v: ClientInformation| v.encodable() && #[trigger] v.wire() == data@ implies f_text_filtering.wire() == v.text_filtering.wire() && p7 == p6 + v.text_filtering.wire().len() by {
                assert(starts_with_at(data@, p6 as int, v.text_filtering.wire()));
            }
        }
        let (f_allow_server_listing, p8) = match <bool as Deserializable>::deserialize(data, p7) {
            Ok(x) => x,
            Err(e) => {
                proof {
                    assert forall|v: ClientInformation| v.encodable() && #[trigger] v.wire() == data@ implies false by {
                        assert(starts_with_at(data@, p7 as int, v.allow_server_listing.wire()));
                    }
                }
                return Err(e);
            },
        };
        proof {
            assert forall|v: ClientInformation| v.encodable() && #[trigger] v.wire() == data@ implies f_allow_server_listing.wire() == v.allow_server_listing.wire() && p8 == p7 + v.allow_server_listing.wire().len() by {
                assert(starts_with_at(data@, p7 as int, v.allow_server_listing.wire()));
            }
        }
        Ok(ClientInformation { locale: f_locale, view_distance: f_view_distance, chat_mode: f_chat_mode, chat_colors: f_chat_colors, displayed_skin_parts: f_displayed_skin_parts, main_hand: f_main_hand, text_filtering: f_text_filtering, allow_server_listing: f_allow_server_listing })
    }
}

/// A message on a plugin channel.
#[derive(Debug, Clone, PartialEq, Eq)]
pub struct PluginMessage {
    pub channel: Identifier,
    pub data: ByteArrayInferredLength,
}

impl Packet for PluginMessage {
    open spec fn spec_id(&self) -> i32 {
        0x02
    }

    fn id(&self) -> (r: i32) {
        0x02
    }
}

impl Serializable for PluginMessage {
    open spec fn wire(&self) -> Seq<u8> {
        self.channel.wire() + self.data.wire()
    }

    open spec fn encodable(&self) -> bool {
        self.channel.encodable()
    }

    fn serialize(&self, out: &mut Vec<u8>) {
        self.channel.serialize(out);
        self.data.serialize(out);
        assert(out@ =~= old(out)@ + self.wire());
    }
}

impl PluginMessage {
    /// Reads this packet from a frame's payload. The payload of any encodable packet of
    /// this kind reads back as a packet with the same wire form.
    pub fn decode(data: &[u8]) -> (r: Result<PluginMessage, CodecError>)
        ensures
            forall|v: PluginMessage| v.encodable() && #[trigger] v.wire() == data@ ==> (r matches Ok(w) && w.wire() == v.wire()),
    {
        let pos: usize = 0;
        proof {
            assert forall|v: PluginMessage| v.encodable() && #[trigger] v.wire() == data@ implies starts_with_at(data@, pos as int, v.channel.wire()) && starts_with_at(data@, pos + v.channel.wire().len(), v.data.wire()) by {
                assert(starts_with_at(data@, 0, v.wire())) by {
                    assert(data@.subrange(0, data@.len() as int) =~= data@);
                }
                lemma_starts_with_split(data@, pos as int, v.channel.wire(), v.data.wire());
            }
        }
        let (f_channel, p1) = match <Identifier as Deserializable>::deserialize(data, pos) {
            Ok(x) => x,
            Err(e) => {
                proof {
                    assert forall|v: PluginMessage| v.encodable() && #[trigger] v.wire() == data@ implies false by {
                        assert(starts_with_at(data@, pos as int, v.channel.wire()));
                    }
                }
                return Err(e);
            },
        };
        proof {
            assert forall|v: PluginMessage| v.encodable() && #[trigger] v.wire() == data@ implies f_channel.wire() == v.channel.wire() && p1 == pos + v.channel.wire().len() by {
                assert(starts_with_at(data@, pos as int, v.channel.wire()));
            }
        }
        let (f_data, p2) = ByteArrayInferredLength::deserialize(data, p1);
        proof {
            assert forall|v: PluginMessage| v.encodable() && #[trigger] v.wire() == data@ implies f_data.0@ == v.data.0@ by {
                assert(starts_with_at(data@, p1 as int, v.data.wire()));
                assert(data@.subrange(p1 as int, data@.len() as int) =~= v.data.0@);
            }
        }
        Ok(PluginMessage { channel: f_channel, data: f_data })
    }
}

/// The client is ready to enter play.
#[derive(Debug, Clone, Copy, PartialEq, Eq)]
pub struct AcknowledgeFinishConfiguration;

impl Packet for AcknowledgeFinishConfiguration {
    open spec fn spec_id(&self) -> i32 {
        0x03
    }

    fn id(&self) -> (r: i32) {
        0x03
    }
}

impl Serializable for AcknowledgeFinishConfiguration {
    open spec fn wire(&self) -> Seq<u8> {
        Seq::empty()
    }

    open spec fn encodable(&self) -> bool {
        true
    }

    fn serialize(&self, out: &mut Vec<u8>) {
        assert(out@ =~= old(out)@ + self.wire());
    }
}

impl AcknowledgeFinishConfiguration {
    /// Reads this packet from a frame's payload. The payload of any encodable packet of
    /// this kind reads back as a packet with the same wire form.
    pub fn decode(data: &[u8]) -> (r: Result<AcknowledgeFinishConfiguration, CodecError>)
        ensures
            forall|v: AcknowledgeFinishConfiguration| v.encodable() && #[trigger] v.wire() == data@ ==> (r matches Ok(w) && w.wire() == v.wire()),
    {
        let pos: usize = 0;
        Ok(AcknowledgeFinishConfiguration)
    }
}

/// The answer to a configuration-phase ping.
#[derive(Debug, Clone, PartialEq, Eq)]
pub struct ConfigurationPong {
    pub id: i32,
}

impl Packet for ConfigurationPong {
    open spec fn spec_id(&self) -> i32 {
        0x05
    }

    fn id(&self) -> (r: i32) {
        0x05
    }
}

impl Serializable for ConfigurationPong {
    open spec fn wire(&self) -> Seq<u8> {
        self.id.wire()
    }

    open spec fn encodable(&self) -> bool {
        self.id.encodable()
    }

    fn serialize(&self, out: &mut Vec<u8>) {
        self.id.serialize(out);
        assert(out@ =~= old(out)@ + self.wire());
    }
}

impl ConfigurationPong {
    /// Reads this packet from a frame's payload. The payload of any encodable packet of
    /// this kind reads back as a packet with the same wire form.
    pub fn decode(data: &[u8]) -> (r: Result<ConfigurationPong, CodecError>)
        ensures
            forall|v: ConfigurationPong| v.encodable() && #[trigger] v.wire() == data@ ==> (r matches Ok(w) && w.wire() == v.wire()),
    {
        let pos: usize = 0;
        proof {
            assert forall|v: ConfigurationPong| v.encodable() && #[trigger] v.wire() == data@ implies starts_with_at(data@, pos as int, v.id.wire()) by {
                assert(starts_with_at(data@, 0, v.wire())) by {
                    assert(data@.subrange(0, data@.len() as int) =~= data@);
                }
            }
        }
        let (f_id, p1) = match <i32 as Deserializable>::deserialize(data, pos) {
            Ok(x) => x,
            Err(e) => {
                proof {
                    assert forall|v: ConfigurationPong| v.encodable() && #[trigger] v.wire() == data@ implies false by {
                        assert(starts_with_at(data@, pos as int, v.id.wire()));
                    }
                }
                return Err(e);
            },
        };
        proof {
            assert forall|v: ConfigurationPong| v.encodable() && #[trigger] v.wire() == data@ implies f_id.wire() == v.id.wire() && p1 == pos + v.id.wire().len() by {
                assert(starts_with_at(data@, pos as int, v.id.wire()));
            }
        }
        Ok(ConfigurationPong { id: f_id })
    }
}

/// The client has applied a teleport.
#[derive(Debug, Clone, PartialEq, Eq)]
pub struct ConfirmTeleportation {
    pub teleport_id: VarInt,
}

impl Packet for ConfirmTeleportation {
    open spec fn spec_id(&self) -> i32 {
        0x00
    }

    fn id(&self) -> (r: i32) {
        0x00
    }
}

impl Serializable for ConfirmTeleportation {
    open spec fn wire(&self) -> Seq<u8> {
        self.teleport_id.wire()
    }

    open spec fn encodable(&self) -> bool {
        self.teleport_id.encodable()
    }

    fn serialize(&self, out: &mut Vec<u8>) {
        self.teleport_id.serialize(out);
        assert(out@ =~= old(out)@ + self.wire());
    }
}

impl ConfirmTeleportation {
    /// Reads this packet from a frame's payload. The payload of any encodable packet of
    /// this kind reads back as a packet with the same wire form.
    pub fn decode(data: &[u8]) -> (r: Result<ConfirmTeleportation, CodecError>)
        ensures
            forall|v: ConfirmTeleportation| v.encodable() && #[trigger] v.wire() == data@ ==> (r matches Ok(w) && w.wire() == v.wire()),
    {
        let pos: usize = 0;
        proof {
            assert forall|v: ConfirmTeleportation| v.encodable() && #[trigger] v.wire() == data@ implies starts_with_at(data@, pos as int, v.teleport_id.wire()) by {
                assert(starts_with_at(data@, 0, v.wire())) by {
                    assert(data@.subrange(0, data@.len() as int) =~= data@);
                }
            }
        }
        let (f_teleport_id, p1) = match <VarInt as Deserializable>::deserialize(data, pos) {
            Ok(x) => x,
            Err(e) => {
                proof {
                    assert forall|v: ConfirmTeleportation| v.encodable() && #[trigger] v.wire() == data@ implies false by {
                        assert(starts_with_at(data@, pos as int, v.teleport_id.wire()));
                    }
                }
                return Err(e);
            },
        };
        proof {
            assert forall|v: ConfirmTeleportation| v.encodable() && #[trigger] v.wire() == data@ implies f_teleport_id.wire() == v.teleport_id.wire() && p1 == pos + v.teleport_id.wire().len() by {
                assert(starts_with_at(data@, pos as int, v.teleport_id.wire()));
            }
        }
        Ok(ConfirmTeleportation { teleport_id: f_teleport_id })
    }
}

/// Where the client is; the coordinates are the IEEE-754 bits of `f64` numbers.
#[derive(Debug, Clone, PartialEq, Eq)]
pub struct SetPlayerPosition {
    pub x: u64,
    pub y: u64,
    pub z: u64,
    pub on_ground: bool,
}

impl Packet for SetPlayerPosition {
    open spec fn spec_id(&self) -> i32 {
        0x1a
    }

    fn id(&self) -> (r: i32) {
        0x1a
    }
}

impl Serializable for SetPlayerPosition {
    open spec fn wire(&self) -> Seq<u8> {
        self.x.wire() + self.y.wire() + self.z.wire() + self.on_ground.wire()
    }

    open spec fn encodable(&self) -> bool {
        self.x.encodable() && self.y.encodable() && self.z.encodable() && self.on_ground.encodable()
    }

    fn serialize(&self, out: &mut Vec<u8>) {
        self.x.serialize(out);
        self.y.serialize(out);
        self.z.serialize(out);
        self.on_ground.serialize(out);
        assert(out@ =~= old(out)@ + self.wire());
    }
}

impl SetPlayerPosition {
    /// Reads this packet from a frame's payload. The payload of any encodable packet of
    /// this kind reads back as a packet with the same wire form.
    pub fn decode(data: &[u8]) -> (r: Result<SetPlayerPosition, CodecError>)
        ensures
            forall|v: SetPlayerPosition| v.encodable() && #[trigger] v.wire() == data@ ==> (r matches Ok(w) && w.wire() == v.wire()),
    {
        let pos: usize = 0;
        proof {
            assert forall|v: SetPlayerPosition| v.encodable() && #[trigger] v.wire() == data@ implies starts_with_at(data@, pos as int, v.x.wire()) && starts_with_at(data@, pos + v.x.wire().len(), v.y.wire()) && starts_with_at(data@, pos + v.x.wire().len() + v.y.wire().len(), v.z.wire()) && starts_with_at(data@, pos + v.x.wire().len() + v.y.wire().len() + v.z.wire().len(), v.on_ground.wire()) by {
                assert(starts_with_at(data@, 0, v.wire())) by {
                    assert(data@.subrange(0, data@.len() as int) =~= data@);
                }
                lemma_starts_with_split(data@, pos as int, v.x.wire() + v.y.wire() + v.z.wire(), v.on_ground.wire());
                lemma_starts_with_split(data@, pos as int, v.x.wire() + v.y.wire(), v.z.wire());
                lemma_starts_with_split(data@, pos as int, v.x.wire(), v.y.wire());
            }
        }
        let (f_x, p1) = match <u64 as Deserializable>::deserialize(data, pos) {
            Ok(x) => x,
            Err(e) => {
                proof {
                    assert forall|v: SetPlayerPosition| v.encodable() && #[trigger] v.wire() == data@ implies false by {
                        assert(starts_with_at(data@, pos as int, v.x.wire()));
                    }
                }
                return Err(e);
            },
        };
        proof {
            assert forall|v: SetPlayerPosition| v.encodable() && #[trigger] v.wire() == data@ implies f_x.wire() == v.x.wire() && p1 == pos + v.x.wire().len() by {
                assert(starts_with_at(data@, pos as int, v.x.wire()));
            }
        }
        let (f_y, p2) = match <u64 as Deserializable>::deserialize(data, p1) {
            Ok(x) => x,
            Err(e) => {
                proof {
                    assert forall|v: SetPlayerPosition| v.encodable() && #[trigger] v.wire() == data@ implies false by {
                        assert(starts_with_at(data@, p1 as int, v.y.wire()));
                    }
                }
                return Err(e);
            },
        };
        proof {
            assert forall|v: SetPlayerPosition| v.encodable() && #[trigger] v.wire() == data@ implies f_y.wire() == v.y.wire() && p2 == p1 + v.y.wire().len() by {
                assert(starts_with_at(data@, p1 as int, v.y.wire()));
            }
        }
        let (f_z, p3) = match <u64 as Deserializable>::deserialize(data, p2) {
            Ok(x) => x,
            Err(e) => {
                proof {
                    assert forall|v: SetPlayerPosition| v.encodable() && #[trigger] v.wire() == data@ implies false by {
                        assert(starts_with_at(data@, p2 as int, v.z.wire()));
                    }
                }
                return Err(e);
            },
        };
        proof {
            assert forall|v: SetPlayerPosition| v.encodable() && #[trigger] v.wire() == data@ implies f_z.wire() == v.z.wire() && p3 == p2 + v.z.wire().len() by {
                assert(starts_with_at(data@, p2 as int, v.z.wire()));
            }
        }
        let (f_on_ground, p4) = match <bool as Deserializable>::deserialize(data, p3) {
            Ok(x) => x,
            Err(e) => {
                proof {
                    assert forall|v: SetPlayerPosition| v.encodable() && #[trigger] v.wire() == data@ implies false by {
                        assert(starts_with_at(data@, p3 as int, v.on_ground.wire()));
                    }
                }
                return Err(e);
            },
        };
        proof {
            assert forall|v: SetPlayerPosition| v.encodable() && #[trigger] v.wire() == data@ implies f_on_ground.wire() == v.on_ground.wire() && p4 == p3 + v.on_ground.wire().len() by {
                assert(starts_with_at(data@, p3 as int, v.on_ground.wire()));
            }
        }
        Ok(SetPlayerPosition { x: f_x, y: f_y, z: f_z, on_ground: f_on_ground })
    }
}

/// A ping in play; the reply echoes the payload.
#[derive(Debug, Clone, PartialEq, Eq)]
pub struct PingRequest {
    pub payload: u64,
}

impl Packet for PingRequest {
    open spec fn spec_id(&self) -> i32 {
        0x21
    }

    fn id(&self) -> (r: i32) {
        0x21
    }
}

impl Serializable for PingRequest {
    open spec fn wire(&self) -> Seq<u8> {
        self.payload.wire()
    }

    open spec fn encodable(&self) -> bool {
        self.payload.encodable()
    }

    fn serialize(&self, out: &mut Vec<u8>) {
        self.payload.serialize(out);
        assert(out@ =~= old(out)@ + self.wire());
    }
}

impl PingRequest {
    /// Reads this packet from a frame's payload. The payload of any encodable packet of
    /// this kind reads back as a packet with the same wire form.
    pub fn decode(data: &[u8]) -> (r: Result<PingRequest, CodecError>)
        ensures
            forall|v: PingRequest| v.encodable() && #[trigger] v.wire() == data@ ==> (r matches Ok(w) && w.wire() == v.wire()),
    {
        let pos: usize = 0;
        proof {
            assert forall|v: PingRequest| v.encodable() && #[trigger] v.wire() == data@ implies starts_with_at(data@, pos as int, v.payload.wire()) by {
                assert(starts_with_at(data@, 0, v.wire())) by {
                    assert(data@.subrange(0, data@.len() as int) =~= data@);
                }
            }
        }
        let (f_payload, p1) = match <u64 as Deserializable>::deserialize(data, pos) {
            Ok(x) => x,
            Err(e) => {
                proof {
                    assert forall|v: PingRequest| v.encodable() && #[trigger] v.wire() == data@ implies false by {
                        assert(starts_with_at(data@, pos as int, v.payload.wire()));
                    }
                }
                return Err(e);
            },
        };
        proof {
            assert forall|v: PingRequest| v.encodable() && #[trigger] v.wire() == data@ implies f_payload.wire() == v.payload.wire() && p1 == pos + v.payload.wire().len() by {
                assert(starts_with_at(data@, pos as int, v.payload.wire()));
            }
        }
        Ok(PingRequest { payload: f_payload })
    }
}

/// The answer to a play-phase ping.
#[derive(Debug, Clone, PartialEq, Eq)]
pub struct PlayPong {
    pub id: i32,
}

impl Packet for PlayPong {
    open spec fn spec_id(&self) -> i32 {
        0x27
    }

    fn id(&self) -> (r: i32) {
        0x27
    }
}

impl Serializable for PlayPong {
    open spec fn wire(&self) -> Seq<u8> {
        self.id.wire()
    }

    open spec fn encodable(&self) -> bool {
        self.id.encodable()
    }

    fn serialize(&self, out: &mut Vec<u8>) {
        self.id.serialize(out);
        assert(out@ =~= old(out)@ + self.wire());
    }
}

impl PlayPong {
    /// Reads this packet from a frame's payload. The payload of any encodable packet of
    /// this kind reads back as a packet with the same wire form.
    pub fn decode(data: &[u8]) -> (r: Result<PlayPong, CodecError>)
        ensures
            forall|v: PlayPong| v.encodable() && #[trigger] v.wire() == data@ ==> (r matches Ok(w) && w.wire() == v.wire()),
    {
        let pos: usize = 0;
        proof {
            assert forall|v: PlayPong| v.encodable() && #[trigger] v.wire() == data@ implies starts_with_at(data@, pos as int, v.id.wire()) by {
                assert(starts_with_at(data@, 0, v.wire())) by {
                    assert(data@.subrange(0, data@.len() as int) =~= data@);
                }
            }
        }
        let (f_id, p1) = match <i32 as Deserializable>::deserialize(data, pos) {
            Ok(x) => x,
            Err(e) => {
                proof {
                    assert forall|v: PlayPong| v.encodable() && #[trigger] v.wire() == data@ implies false by {
                        assert(starts_with_at(data@, pos as int, v.id.wire()));
                    }
                }
                return Err(e);
            },
        };
        proof {
            assert forall|v: PlayPong| v.encodable() && #[trigger] v.wire() == data@ implies f_id.wire() == v.id.wire() && p1 == pos + v.id.wire().len() by {
                assert(starts_with_at(data@, pos as int, v.id.wire()));
            }
        }
        Ok(PlayPong { id: f_id })
    }
}

/// The server's status as JSON text.
#[derive(Debug, Clone, PartialEq, Eq)]
pub struct StatusResponse {
    pub response: String,
}

impl Packet for StatusResponse {
    open spec fn spec_id(&self) -> i32 {
        0x00
    }

    fn id(&self) -> (r: i32) {
        0x00
    }
}

impl Serializable for StatusResponse {
    open spec fn wire(&self) -> Seq<u8> {
        self.response.wire()
    }

    open spec fn encodable(&self) -> bool {
        self.response.encodable()
    }

    fn serialize(&self, out: &mut Vec<u8>) {
        self.response.serialize(out);
        assert(out@ =~= old(out)@ + self.wire());
    }
}

/// The echo of a status ping.
#[derive(Debug, Clone, PartialEq, Eq)]
pub struct StatusPongResponse {
    pub timestamp: u64,
}

impl Packet for StatusPongResponse {
    open spec fn spec_id(&self) -> i32 {
        0x01
    }

    fn id(&self) -> (r: i32) {
        0x01
    }
}

impl Serializable for StatusPongResponse {
    open spec fn wire(&self) -> Seq<u8> {
        self.timestamp.wire()
    }

    open spec fn encodable(&self) -> bool {
        self.timestamp.encodable()
    }

    fn serialize(&self, out: &mut Vec<u8>) {
        self.timestamp.serialize(out);
        assert(out@ =~= old(out)@ + self.wire());
    }
}

/// Asks the client to set up encryption.
#[derive(Debug, Clone, PartialEq, Eq)]
pub struct EncryptionRequest {
    pub server_id: String,
    pub public_key: ByteArrayPrefixedLength,
    pub verify_token: ByteArrayPrefixedLength,
    pub should_auth: bool,
}

impl Packet for EncryptionRequest {
    open spec fn spec_id(&self) -> i32 {
        0x01
    }

    fn id(&self) -> (r: i32) {
        0x01
    }
}

impl Serializable for EncryptionRequest {
    open spec fn wire(&self) -> Seq<u8> {
        self.server_id.wire() + self.public_key.wire() + self.verify_token.wire() + self.should_auth.wire()
    }

    open spec fn encodable(&self) -> bool {
        self.server_id.encodable() && self.public_key.encodable() && self.verify_token.encodable() && self.should_auth.encodable()
    }

    fn serialize(&self, out: &mut Vec<u8>) {
        self.server_id.serialize(out);
        self.public_key.serialize(out);
        self.verify_token.serialize(out);
        self.should_auth.serialize(out);
        assert(out@ =~= old(out)@ + self.wire());
    }
}

/// Ends the login phase, naming the player.
#[derive(Debug, Clone, PartialEq, Eq)]
pub struct LoginSuccess {
    pub uuid: u128,
    pub username: String,
    pub property_count: VarInt,
    pub strict_error_handling: bool,
}

impl Packet for LoginSuccess {
    open spec fn spec_id(&self) -> i32 {
        0x02
    }

    fn id(&self) -> (r: i32) {
        0x02
    }
}

impl Serializable for LoginSuccess {
    open spec fn wire(&self) -> Seq<u8> {
        self.uuid.wire() + self.username.wire() + self.property_count.wire() + self.strict_error_handling.wire()
    }

    open spec fn encodable(&self) -> bool {
        self.uuid.encodable() && self.username.encodable() && self.property_count.encodable() && self.strict_error_handling.encodable()
    }

    fn serialize(&self, out: &mut Vec<u8>) {
        self.uuid.serialize(out);
        self.username.serialize(out);
        self.property_count.serialize(out);
        self.strict_error_handling.serialize(out);
        assert(out@ =~= old(out)@ + self.wire());
    }
}

/// Announces the compression threshold; every later packet is in the compressed form.
#[derive(Debug, Clone, PartialEq, Eq)]
pub struct SetCompression {
    pub threshold: VarInt,
}

impl Packet for SetCompression {
    open spec fn spec_id(&self) -> i32 {
        0x03
    }

    fn id(&self) -> (r: i32) {
        0x03
    }
}

impl Serializable for SetCompression {
    open spec fn wire(&self) -> Seq<u8> {
        self.threshold.wire()
    }

    open spec fn encodable(&self) -> bool {
        self.threshold.encodable()
    }

    fn serialize(&self, out: &mut Vec<u8>) {
        self.threshold.serialize(out);
        assert(out@ =~= old(out)@ + self.wire());
    }
}

/// A login plugin request.
#[derive(Debug, Clone, PartialEq, Eq)]
pub struct PluginRequest {
    pub id: VarInt,
    pub channel: Identifier,
    pub data: ByteArrayInferredLength,
}

impl Packet for PluginRequest {
    open spec fn spec_id(&self) -> i32 {
        0x04
    }

    fn id(&self) -> (r: i32) {
        0x04
    }
}

impl Serializable for PluginRequest {
    open spec fn wire(&self) -> Seq<u8> {
        self.id.wire() + self.channel.wire() + self.data.wire()
    }

    open spec fn encodable(&self) -> bool {
        self.id.encodable() && self.channel.encodable()
    }

    fn serialize(&self, out: &mut Vec<u8>) {
        self.id.serialize(out);
        self.channel.serialize(out);
        self.data.serialize(out);
        assert(out@ =~= old(out)@ + self.wire());
    }
}

/// Asks the client for a stored cookie.
#[derive(Debug, Clone, PartialEq, Eq)]
pub struct CookieRequest {
    pub key: Identifier,
}

impl Packet for CookieRequest {
    open spec fn spec_id(&self) -> i32 {
        0x05
    }

    fn id(&self) -> (r: i32) {
        0x05
    }
}

impl Serializable for CookieRequest {
    open spec fn wire(&self) -> Seq<u8> {
        self.key.wire()
    }

    open spec fn encodable(&self) -> bool {
        self.key.encodable()
    }

    fn serialize(&self, out: &mut Vec<u8>) {
        self.key.serialize(out);
        assert(out@ =~= old(out)@ + self.wire());
    }
}

/// Tells the client that configuration is over.
#[derive(Debug, Clone, Copy, PartialEq, Eq)]
pub struct FinishConfiguration;

impl Packet for FinishConfiguration {
    open spec fn spec_id(&self) -> i32 {
        0x03
    }

    fn id(&self) -> (r: i32) {
        0x03
    }
}

impl Serializable for FinishConfiguration {
    open spec fn wire(&self) -> Seq<u8> {
        Seq::empty()
    }

    open spec fn encodable(&self) -> bool {
        true
    }

    fn serialize(&self, out: &mut Vec<u8>) {
        assert(out@ =~= old(out)@ + self.wire());
    }
}

/// The configuration-phase keep-alive.
#[derive(Debug, Clone, PartialEq, Eq)]
pub struct ConfigurationPing {
    pub id: i32,
}

impl Packet for ConfigurationPing {
    open spec fn spec_id(&self) -> i32 {
        0x05
    }

    fn id(&self) -> (r: i32) {
        0x05
    }
}

impl Serializable for ConfigurationPing {
    open spec fn wire(&self) -> Seq<u8> {
        self.id.wire()
    }

    open spec fn encodable(&self) -> bool {
        self.id.encodable()
    }

    fn serialize(&self, out: &mut Vec<u8>) {
        self.id.serialize(out);
        assert(out@ =~= old(out)@ + self.wire());
    }
}

/// The play-phase keep-alive.
#[derive(Debug, Clone, PartialEq, Eq)]
pub struct PlayPing {
    pub id: i32,
}

impl Packet for PlayPing {
    open spec fn spec_id(&self) -> i32 {
        0x35
    }

    fn id(&self) -> (r: i32) {
        0x35
    }
}

impl Serializable for PlayPing {
    open spec fn wire(&self) -> Seq<u8> {
        self.id.wire()
    }

    open spec fn encodable(&self) -> bool {
        self.id.encodable()
    }

    fn serialize(&self, out: &mut Vec<u8>) {
        self.id.serialize(out);
        assert(out@ =~= old(out)@ + self.wire());
    }
}

/// The echo of a play ping.
#[derive(Debug, Clone, PartialEq, Eq)]
pub struct PingResponse {
    pub payload: u64,
}

impl Packet for PingResponse {
    open spec fn spec_id(&self) -> i32 {
        0x36
    }

    fn id(&self) -> (r: i32) {
        0x36
    }
}

impl Serializable for PingResponse {
    open spec fn wire(&self) -> Seq<u8> {
        self.payload.wire()
    }

    open spec fn encodable(&self) -> bool {
        self.payload.encodable()
    }

    fn serialize(&self, out: &mut Vec<u8>) {
        self.payload.serialize(out);
        assert(out@ =~= old(out)@ + self.wire());
    }
}

/// Drops a chunk on the client.
#[derive(Debug, Clone, PartialEq, Eq)]
pub struct UnloadChunk {
    pub chunk_x: i32,
    pub chunk_z: i32,
}

impl Packet for UnloadChunk {
    open spec fn spec_id(&self) -> i32 {
        0x21
    }

    fn id(&self) -> (r: i32) {
        0x21
    }
}

impl Serializable for UnloadChunk {
    open spec fn wire(&self) -> Seq<u8> {
        self.chunk_x.wire() + self.chunk_z.wire()
    }

    open spec fn encodable(&self) -> bool {
        self.chunk_x.encodable() && self.chunk_z.encodable()
    }

    fn serialize(&self, out: &mut Vec<u8>) {
        self.chunk_x.serialize(out);
        self.chunk_z.serialize(out);
        assert(out@ =~= old(out)@ + self.wire());
    }
}

/// Moves the centre of the client's view.
#[derive(Debug, Clone, PartialEq, Eq)]
pub struct SetCenterChunk {
    pub x: VarInt,
    pub z: VarInt,
}

impl Packet for SetCenterChunk {
    open spec fn spec_id(&self) -> i32 {
        0x54
    }

    fn id(&self) -> (r: i32) {
        0x54
    }
}

impl Serializable for SetCenterChunk {
    open spec fn wire(&self) -> Seq<u8> {
        self.x.wire() + self.z.wire()
    }

    open spec fn encodable(&self) -> bool {
        self.x.encodable() && self.z.encodable()
    }

    fn serialize(&self, out: &mut Vec<u8>) {
        self.x.serialize(out);
        self.z.serialize(out);
        assert(out@ =~= old(out)@ + self.wire());
    }
}

/// A game event; the value is the IEEE-754 bits of an `f32`.
#[derive(Debug, Clone, PartialEq, Eq)]
pub struct GameEvent {
    pub event: u8,
    pub value: u32,
}

impl Packet for GameEvent {
    open spec fn spec_id(&self) -> i32 {
        0x22
    }

    fn id(&self) -> (r: i32) {
        0x22
    }
}

impl Serializable for GameEvent {
    open spec fn wire(&self) -> Seq<u8> {
        self.event.wire() + self.value.wire()
    }

    open spec fn encodable(&self) -> bool {
        self.event.encodable() && self.value.encodable()
    }

    fn serialize(&self, out: &mut Vec<u8>) {
        self.event.serialize(out);
        self.value.serialize(out);
        assert(out@ =~= old(out)@ + self.wire());
    }
}

/// Moves the client; coordinates and angles are IEEE-754 bits.
#[derive(Debug, Clone, PartialEq, Eq)]
pub struct SynchronizePlayerPosition {
    pub x: u64,
    pub y: u64,
    pub z: u64,
    pub yaw: u32,
    pub pitch: u32,
    pub flags: u8,
    pub teleport_id: VarInt,
}

impl Packet for SynchronizePlayerPosition {
    open spec fn spec_id(&self) -> i32 {
        0x40
    }

    fn id(&self) -> (r: i32) {
        0x40
    }
}

impl Serializable for SynchronizePlayerPosition {
    open spec fn wire(&self) -> Seq<u8> {
        self.x.wire() + self.y.wire() + self.z.wire() + self.yaw.wire() + self.pitch.wire() + self.flags.wire() + self.teleport_id.wire()
    }

    open spec fn encodable(&self) -> bool {
        self.x.encodable() && self.y.encodable() && self.z.encodable() && self.yaw.encodable() && self.pitch.encodable() && self.flags.encodable() && self.teleport_id.encodable()
    }

    fn serialize(&self, out: &mut Vec<u8>) {
        self.x.serialize(out);
        self.y.serialize(out);
        self.z.serialize(out);
        self.yaw.serialize(out);
        self.pitch.serialize(out);
        self.flags.serialize(out);
        self.teleport_id.serialize(out);
        assert(out@ =~= old(out)@ + self.wire());
    }
}

/// The player's abilities; speeds are IEEE-754 bits of `f32` numbers.
#[derive(Debug, Clone, PartialEq, Eq)]
pub struct PlayerAbilities {
    pub abilities: u8,
    pub flying_speed: u32,
    pub fov_modifier: u32,
}

impl Packet for PlayerAbilities {
    open spec fn spec_id(&self) -> i32 {
        0x38
    }

    fn id(&self) -> (r: i32) {
        0x38
    }
}

impl Serializable for PlayerAbilities {
    open spec fn wire(&self) -> Seq<u8> {
        self.abilities.wire() + self.flying_speed.wire() + self.fov_modifier.wire()
    }

    open spec fn encodable(&self) -> bool {
        self.abilities.encodable() && self.flying_speed.encodable() && self.fov_modifier.encodable()
    }

    fn serialize(&self, out: &mut Vec<u8>) {
        self.abilities.serialize(out);
        self.flying_speed.serialize(out);
        self.fov_modifier.serialize(out);
        assert(out@ =~= old(out)@ + self.wire());
    }
}

/// Updates the player list.
#[derive(Debug, Clone, PartialEq, Eq)]
pub struct PlayerInfoUpdate {
    pub actions: u8,
    pub player_count: VarInt,
}

impl Packet for PlayerInfoUpdate {
    open spec fn spec_id(&self) -> i32 {
        0x3e
    }

    fn id(&self) -> (r: i32) {
        0x3e
    }
}

impl Serializable for PlayerInfoUpdate {
    open spec fn wire(&self) -> Seq<u8> {
        self.actions.wire() + self.player_count.wire()
    }

    open spec fn encodable(&self) -> bool {
        self.actions.encodable() && self.player_count.encodable()
    }

    fn serialize(&self, out: &mut Vec<u8>) {
        self.actions.serialize(out);
        self.player_count.serialize(out);
        assert(out@ =~= old(out)@ + self.wire());
    }
}

/// Starts play: the player's entity, the world and its rules.
#[derive(Debug, Clone, PartialEq, Eq)]
pub struct PlayLogin {
    pub e_id: i32,
    pub is_hardcore: bool,
    pub dimension_count: VarInt,
    pub dimension: Identifier,
    pub max_players: VarInt,
    pub view_distance: VarInt,
    pub simulation_distance: VarInt,
    pub reduced_debug_info: bool,
    pub enable_respawns: bool,
    pub limited_crafting: bool,
    pub dimension_type: VarInt,
    pub dimension_name: Identifier,
    pub seed: i64,
    pub game_mode: u8,
    pub previous_game_mode: i8,
    pub is_debug: bool,
    pub is_flat: bool,
    pub has_death_location: bool,
    pub portal_cooldown: VarInt,
    pub enforces_secure_chat: bool,
}

impl Packet for PlayLogin {
    open spec fn spec_id(&self) -> i32 {
        0x2b
    }

    fn id(&self) -> (r: i32) {
        0x2b
    }
}

impl PlayLogin {
    pub open spec fn wire_part0(&self) -> Seq<u8> {
        self.e_id.wire() + self.is_hardcore.wire() + self.dimension_count.wire() + self.dimension.wire() + self.max_players.wire()
    }

    fn serialize_part0(&self, out: &mut Vec<u8>)
        ensures
            final(out)@ == old(out)@ + self.wire_part0(),
    {
        self.e_id.serialize(out);
        self.is_hardcore.serialize(out);
        self.dimension_count.serialize(out);
        self.dimension.serialize(out);
        self.max_players.serialize(out);
        assert(out@ =~= old(out)@ + self.wire_part0());
    }

    pub open spec fn wire_part1(&self) -> Seq<u8> {
        self.view_distance.wire() + self.simulation_distance.wire() + self.reduced_debug_info.wire() + self.enable_respawns.wire() + self.limited_crafting.wire()
    }

    fn serialize_part1(&self, out: &mut Vec<u8>)
        ensures
            final(out)@ == old(out)@ + self.wire_part1(),
    {
        self.view_distance.serialize(out);
        self.simulation_distance.serialize(out);
        self.reduced_debug_info.serialize(out);
        self.enable_respawns.serialize(out);
        self.limited_crafting.serialize(out);
        assert(out@ =~= old(out)@ + self.wire_part1());
    }

    pub open spec fn wire_part2(&self) -> Seq<u8> {
        self.dimension_type.wire() + self.dimension_name.wire() + self.seed.wire() + self.game_mode.wire() + self.previous_game_mode.wire()
    }

    fn serialize_part2(&self, out: &mut Vec<u8>)
        ensures
            final(out)@ == old(out)@ + self.wire_part2(),
    {
        self.dimension_type.serialize(out);
        self.dimension_name.serialize(out);
        self.seed.serialize(out);
        self.game_mode.serialize(out);
        self.previous_game_mode.serialize(out);
        assert(out@ =~= old(out)@ + self.wire_part2());
    }

    pub open spec fn wire_part3(&self) -> Seq<u8> {
        self.is_debug.wire() + self.is_flat.wire() + self.has_death_location.wire() + self.portal_cooldown.wire() + self.enforces_secure_chat.wire()
    }

    fn serialize_part3(&self, out: &mut Vec<u8>)
        ensures
            final(out)@ == old(out)@ + self.wire_part3(),
    {
        self.is_debug.serialize(out);
        self.is_flat.serialize(out);
        self.has_death_location.serialize(out);
        self.portal_cooldown.serialize(out);
        self.enforces_secure_chat.serialize(out);
        assert(out@ =~= old(out)@ + self.wire_part3());
    }

}

impl Serializable for PlayLogin {
    open spec fn wire(&self) -> Seq<u8> {
        self.wire_part0() + self.wire_part1() + self.wire_part2() + self.wire_part3()
    }

    open spec fn encodable(&self) -> bool {
        self.e_id.encodable() && self.is_hardcore.encodable() && self.dimension_count.encodable() && self.dimension.encodable() && self.max_players.encodable() && self.view_distance.encodable() && self.simulation_distance.encodable() && self.reduced_debug_info.encodable() && self.enable_respawns.encodable() && self.limited_crafting.encodable() && self.dimension_type.encodable() && self.dimension_name.encodable() && self.seed.encodable() && self.game_mode.encodable() && self.previous_game_mode.encodable() && self.is_debug.encodable() && self.is_flat.encodable() && self.has_death_location.encodable() && self.portal_cooldown.encodable() && self.enforces_secure_chat.encodable()
    }

    fn serialize(&self, out: &mut Vec<u8>) {
        self.serialize_part0(out);
        self.serialize_part1(out);
        self.serialize_part2(out);
        self.serialize_part3(out);
        assert(out@ =~= old(out)@ + self.wire());
    }
}

} // verus!
