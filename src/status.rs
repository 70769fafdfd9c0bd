//! The status reply, chat settings and the per-connection record.
use vstd::prelude::*;
use crate::packets::{LoginStart, LoginSuccess, SetCompression, StatusResponse};
use crate::varint::VarInt;
use crate::wire::Serializable;
use crate::protocol::PlayerState;
use crate::text::{component_json, Component};

verus! {

pub open spec fn decimal_digit(d: nat) -> char {
    ((d + 48) as u8) as char
}

/// `n` in decimal, without leading zeros.
pub open spec fn decimal_chars(n: nat) -> Seq<char>
    decreases n,
{
    if n < 10 {
        seq![decimal_digit(n)]
    } else {
        decimal_chars(n / 10).push(decimal_digit(n % 10))
    }
}

/// Appends `n` in decimal.
pub fn push_decimal(s: String, n: u64) -> (r: String)
    ensures
        r@ == s@ + decimal_chars(n as nat),
    decreases n,
{
    let d = n % 10;
    let head = if n >= 10 {
        push_decimal(s, n / 10)
    } else {
        s
    };
    let digit: &str = if d == 0 {
        "0"
    } else if d == 1 {
        "1"
    } else if d == 2 {
        "2"
    } else if d == 3 {
        "3"
    } else if d == 4 {
        "4"
    } else if d == 5 {
        "5"
    } else if d == 6 {
        "6"
    } else if d == 7 {
        "7"
    } else if d == 8 {
        "8"
    } else {
        "9"
    };
    proof {
        reveal_strlit("0");
        reveal_strlit("1");
        reveal_strlit("2");
        reveal_strlit("3");
        reveal_strlit("4");
        reveal_strlit("5");
        reveal_strlit("6");
        reveal_strlit("7");
        reveal_strlit("8");
        reveal_strlit("9");
        assert(digit@ =~= seq![decimal_digit(d as nat)]);
    }
    head.concat(digit)
}

/// The version name this server reports.
pub open spec fn version_name() -> Seq<char> {
    "1.21.1"@
}

/// The status JSON: version name and protocol, player counts, description and whether
/// secure chat is enforced.
pub open spec fn status_json(max_players: u64, online: u64, description: Seq<char>, secure: bool) -> Seq<char> {
    "{\"version\":{\"name\":\"1.21.1\",\"protocol\":767},\"players\":{\"max\":"@ + decimal_chars(
        max_players as nat,
    ) + ",\"online\":"@ + decimal_chars(online as nat) + "},\"description\":"@ + description
        + ",\"enforcesSecureChat\":"@ + (if secure {
        "true"@
    } else {
        "false"@
    }) + "}"@
}

impl StatusResponse {
    /// The reply to a status request.
    pub fn new(max_players: u64, curr_players: u64, description: &Component, enforces_secure_chat: bool) -> (r: StatusResponse)
        ensures
            r.response@ == status_json(max_players, curr_players, component_json(*description), enforces_secure_chat),
    {
        let mut s = String::from_str("{\"version\":{\"name\":\"1.21.1\",\"protocol\":767},\"players\":{\"max\":");
        s = push_decimal(s, max_players);
        s = s.concat(",\"online\":");
        s = push_decimal(s, curr_players);
        s = s.concat("},\"description\":");
        let d = description.to_json();
        s = s.concat(d.as_str());
        s = s.concat(",\"enforcesSecureChat\":");
        s = s.concat(if enforces_secure_chat { "true" } else { "false" });
        s = s.concat("}");
        StatusResponse { response: s }
    }
}

/// The most players the status reply announces.
pub const MAX_PLAYERS: u64 = 100;

/// The description the status reply shows, as component JSON.
pub open spec fn server_description_json() -> Seq<char> {
    "{\"text\":\"A fe2o3 server\"}"@
}

/// The reply to a status request with `online` players in play: at most 100 players, the
/// server's description, secure chat not enforced.
pub fn status_reply(online: u64) -> (r: StatusResponse)
    ensures
        r.response@ == status_json(MAX_PLAYERS, online, server_description_json(), false),
{
    let description = Component::new("A fe2o3 server");
    proof {
        reveal_strlit("A fe2o3 server");
        reveal_strlit("{\"text\":\"A fe2o3 server\"}");
        reveal_strlit("{\"text\":\"");
        reveal_strlit("\"");
        reveal_strlit("}");
        crate::text::lemma_escape_plain("A fe2o3 server"@);
        assert(component_json(description) =~= server_description_json());
    }
    StatusResponse::new(MAX_PLAYERS, online, &description, false)
}

/// Which chat messages a client wants.
#[derive(Debug, Clone, Copy, PartialEq, Eq, Structural)]
pub enum ChatMode {
    All,
    CommandsOnly,
    Hidden,
}

impl ChatMode {
    /// 0 all, 1 commands only, 2 hidden; anything else is all.
    pub fn from_id(v: i32) -> (r: ChatMode)
        ensures
            r == (if v == 1 {
                ChatMode::CommandsOnly
            } else if v == 2 {
                ChatMode::Hidden
            } else {
                ChatMode::All
            }),
    {
        if v == 1 {
            ChatMode::CommandsOnly
        } else if v == 2 {
            ChatMode::Hidden
        } else {
            ChatMode::All
        }
    }
}

/// A client's chat preferences.
#[derive(Debug, Clone, Copy, PartialEq, Eq, Structural)]
pub struct ChatSettings {
    pub mode: ChatMode,
    pub show_colors: bool,
}

impl ChatSettings {
    /// All messages, with colours.
    pub fn default_settings() -> (r: ChatSettings)
        ensures
            r == (ChatSettings { mode: ChatMode::All, show_colors: true }),
    {
        ChatSettings { mode: ChatMode::All, show_colors: true }
    }
}

/// Bytes read from a socket and not yet framed.
pub struct ReadBytes(pub Vec<u8>);

/// A connection before it becomes a player.
pub struct Connection {
    pub id: u64,
    pub state: PlayerState,
    pub username: String,
    pub uuid: u128,
    pub display_in_server_list: bool,
    pub chat_settings: ChatSettings,
    pub text_filtering: bool,
    /// The compression threshold, once login has set it.
    pub compression_threshold: Option<u32>,
}

impl Connection {
    /// A connection that has just been accepted: in the handshake phase, uncompressed.
    pub fn new(id: u64) -> (r: Connection)
        ensures
            r.id == id,
            r.state == PlayerState::HANDSHAKE,
            r.username@.len() == 0,
            r.compression_threshold is None,
            r.chat_settings == (ChatSettings { mode: ChatMode::All, show_colors: true }),
            r.text_filtering,
            !r.display_in_server_list,
    {
        Connection {
            id,
            state: PlayerState::HANDSHAKE,
            username: String::new(),
            uuid: 0,
            display_in_server_list: false,
            chat_settings: ChatSettings::default_settings(),
            text_filtering: true,
            compression_threshold: None,
        }
    }

    /// Records who is logging in and answers: `SetCompression` with the threshold first
    /// (the threshold applies to every packet after it), then `LoginSuccess`.
    pub fn handle_login_start(&mut self, start: LoginStart, threshold: u32) -> (r: (SetCompression, LoginSuccess))
        requires
            threshold <= i32::MAX,
        ensures
            final(self).username@ == start.name@,
            final(self).uuid == start.uuid,
            final(self).compression_threshold == if old(self).compression_threshold is None {
                Some(threshold)
            } else {
                old(self).compression_threshold
            },
            final(self).state == old(self).state,
            final(self).id == old(self).id,
            r.0.threshold == VarInt(threshold as i32),
            r.1.uuid == start.uuid,
            r.1.username@ == start.name@,
            r.1.property_count == VarInt(0),
            !r.1.strict_error_handling,
    {
        self.enable_compression(threshold);
        self.username = start.name.clone();
        self.uuid = start.uuid;
        (
            SetCompression { threshold: VarInt(threshold as i32) },
            LoginSuccess { uuid: start.uuid, username: start.name, property_count: VarInt(0), strict_error_handling: false },
        )
    }

    /// Handles the acknowledgement of login: the connection enters configuration and the
    /// registries are sent, in order; outside login nothing changes and nothing is sent.
    pub fn handle_login_acknowledged(&mut self, registries: &Vec<crate::json_nbt::RegistryData>) -> (r: Vec<crate::player::OutgoingPacket>)
        ensures
            old(self).state == PlayerState::LOGIN ==> final(self).state == PlayerState::CONFIGURATION
                && crate::player::packets_model(r@) == registries@.map_values(
                |g: crate::json_nbt::RegistryData| (0x07i32, g.wire()),
            ),
            old(self).state != PlayerState::LOGIN ==> final(self).state == old(self).state && r@.len() == 0,
            final(self).compression_threshold == old(self).compression_threshold,
            final(self).id == old(self).id,
    {
        let mut out: Vec<crate::player::OutgoingPacket> = Vec::new();
        if crate::protocol::transition(&mut self.state, crate::protocol::StateEvent::LoginAcknowledged).is_err() {
            return out;
        }
        let mut i: usize = 0;
        while i < registries.len()
            invariant
                i <= registries@.len(),
                crate::player::packets_model(out@) == registries@.take(i as int).map_values(
                    |g: crate::json_nbt::RegistryData| (0x07i32, g.wire()),
                ),
            decreases registries@.len() - i,
        {
            let mut payload: Vec<u8> = Vec::new();
            registries[i].serialize(&mut payload);
            assert(payload@ =~= registries@[i as int].wire());
            let ghost before = out@;
            out.push(crate::player::OutgoingPacket { id: 0x07, payload });
            proof {
                assert(crate::player::packets_model(out@) =~= crate::player::packets_model(before).push(
                    (0x07i32, registries@[i as int].wire()),
                ));
                assert(crate::player::packets_model(out@) =~= registries@.take(i + 1).map_values(
                    |g: crate::json_nbt::RegistryData| (0x07i32, g.wire()),
                ));
            }
            i = i + 1;
        }
        assert(registries@.take(registries@.len() as int) =~= registries@);
        out
    }

    /// Answers a status request: in the status phase, the one `StatusResponse` (id 0x00) with
    /// `online` players in play; in any other phase nothing.
    pub fn handle_status_request(&self, online: u64) -> (r: Option<crate::player::OutgoingPacket>)
        ensures
            self.state == PlayerState::STATUS ==> (r matches Some(p) && p.id == 0x00 && p.payload@
                == crate::wire::string_wire(status_json(MAX_PLAYERS, online, server_description_json(), false))),
            self.state != PlayerState::STATUS ==> r is None,
    {
        if self.state != PlayerState::STATUS {
            return None;
        }
        let reply = status_reply(online);
        let mut payload: Vec<u8> = Vec::new();
        reply.serialize(&mut payload);
        Some(crate::player::OutgoingPacket { id: 0x00, payload })
    }

    /// Records the client's chat settings, text filtering and server-list choice.
    pub fn apply_client_information(&mut self, info: &crate::packets::ClientInformation)
        ensures
            final(self).chat_settings == (ChatSettings { mode: if info.chat_mode.0 == 1 {
                ChatMode::CommandsOnly
            } else if info.chat_mode.0 == 2 {
                ChatMode::Hidden
            } else {
                ChatMode::All
            }, show_colors: info.chat_colors }),
            final(self).text_filtering == info.text_filtering,
            final(self).display_in_server_list == info.allow_server_listing,
            final(self).state == old(self).state,
            final(self).username == old(self).username,
            final(self).compression_threshold == old(self).compression_threshold,
    {
        self.chat_settings = ChatSettings { mode: ChatMode::from_id(info.chat_mode.0), show_colors: info.chat_colors };
        self.text_filtering = info.text_filtering;
        self.display_in_server_list = info.allow_server_listing;
    }

    /// Sets the compression threshold; it is set once, and later calls leave it as it is.
    pub fn enable_compression(&mut self, threshold: u32) -> (r: bool)
        ensures
            r == old(self).compression_threshold is None,
            final(self).compression_threshold == if r {
                Some(threshold)
            } else {
                old(self).compression_threshold
            },
            final(self).state == old(self).state,
            final(self).id == old(self).id,
    {
        if self.compression_threshold.is_none() {
            self.compression_threshold = Some(threshold);
            true
        } else {
            false
        }
    }
}

} // verus!
