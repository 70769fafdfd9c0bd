//! The connection state machine and the table that says which packet an inbound id is in
//! each state.
use vstd::prelude::*;

verus! {

/// The phase of a connection. The protocol version spoken is 767, "1.21.1".
#[derive(Debug, Clone, Copy, PartialEq, Eq, Structural)]
pub enum PlayerState {
    HANDSHAKE,
    STATUS,
    LOGIN,
    TRANSFER,
    CONFIGURATION,
    PLAY,
}

/// The phase of a connection, under the name the wire layer uses.
pub type ConnectionState = PlayerState;

/// The protocol version this server speaks.
pub const PROTOCOL_VERSION: i32 = 767;

/// What moves a connection from one phase to the next.
#[derive(Debug, Clone, Copy, PartialEq, Eq, Structural)]
pub enum StateEvent {
    /// The handshake, with the phase the client asks for (1 status, 2 login, 3 transfer).
    Handshake { next_state: i32 },
    LoginAcknowledged,
    AcknowledgeFinishConfiguration,
}

/// Why an event did not move the connection.
#[derive(Debug, Clone, Copy, PartialEq, Eq, Structural)]
pub enum TransitionError {
    /// The event does not belong to the connection's phase.
    Illegal,
    /// The handshake asked for a phase that does not exist.
    UnknownNextState(i32),
}

/// Where an event takes a connection, if it is legal there.
pub open spec fn step(state: PlayerState, event: StateEvent) -> Result<PlayerState, TransitionError> {
    match (state, event) {
        (PlayerState::HANDSHAKE, StateEvent::Handshake { next_state }) => if next_state == 1 {
            Ok(PlayerState::STATUS)
        } else if next_state == 2 || next_state == 3 {
            Ok(PlayerState::LOGIN)
        } else {
            Err(TransitionError::UnknownNextState(next_state))
        },
        (PlayerState::LOGIN, StateEvent::LoginAcknowledged) => Ok(PlayerState::CONFIGURATION),
        (PlayerState::CONFIGURATION, StateEvent::AcknowledgeFinishConfiguration) => Ok(
            PlayerState::PLAY,
        ),
        _ => Err(TransitionError::Illegal),
    }
}

/// The edges of the phase diagram.
pub open spec fn is_edge(from: PlayerState, to: PlayerState) -> bool {
    (from == PlayerState::HANDSHAKE && (to == PlayerState::STATUS || to == PlayerState::LOGIN)) || (
    from == PlayerState::LOGIN && to == PlayerState::CONFIGURATION) || (from
        == PlayerState::CONFIGURATION && to == PlayerState::PLAY)
}

/// How far along the diagram a phase is.
pub open spec fn rank(s: PlayerState) -> nat {
    match s {
        PlayerState::HANDSHAKE => 0,
        PlayerState::STATUS => 1,
        PlayerState::LOGIN => 1,
        PlayerState::TRANSFER => 1,
        PlayerState::CONFIGURATION => 2,
        PlayerState::PLAY => 3,
    }
}

/// The phase after an event: the next one where the event is legal, the same one otherwise.
pub open spec fn after(state: PlayerState, event: StateEvent) -> PlayerState {
    match step(state, event) {
        Ok(s) => s,
        Err(_) => state,
    }
}

/// The phase after a run of events.
pub open spec fn run(state: PlayerState, events: Seq<StateEvent>) -> PlayerState
    decreases events.len(),
{
    if events.len() == 0 {
        state
    } else {
        after(run(state, events.drop_last()), events.last())
    }
}

/// Applies an event to a connection's phase. An illegal event leaves the phase as it is and
/// says why.
pub fn transition(state: &mut PlayerState, event: StateEvent) -> (r: Result<(), TransitionError>)
    ensures
        match step(*old(state), event) {
            Ok(s) => r is Ok && *final(state) == s,
            Err(e) => r == Err::<(), TransitionError>(e) && *final(state) == *old(state),
        },
{
    match (*state, event) {
        (PlayerState::HANDSHAKE, StateEvent::Handshake { next_state }) => {
            if next_state == 1 {
                *state = PlayerState::STATUS;
                Ok(())
            } else if next_state == 2 || next_state == 3 {
                *state = PlayerState::LOGIN;
                Ok(())
            } else {
                Err(TransitionError::UnknownNextState(next_state))
            }
        },
        (PlayerState::LOGIN, StateEvent::LoginAcknowledged) => {
            *state = PlayerState::CONFIGURATION;
            Ok(())
        },
        (PlayerState::CONFIGURATION, StateEvent::AcknowledgeFinishConfiguration) => {
            *state = PlayerState::PLAY;
            Ok(())
        },
        _ => Err(TransitionError::Illegal),
    }
}

/// A legal event moves a connection along one edge of the diagram.
pub proof fn lemma_step_is_edge(state: PlayerState, event: StateEvent)
    ensures
        step(state, event) matches Ok(s) ==> is_edge(state, s) && rank(s) == rank(state) + 1,
{
}

/// Whatever events arrive, a connection's phase only moves along the diagram: every event
/// either leaves it or takes one edge, so its rank never goes down.
pub proof fn lemma_states_only_advance(state: PlayerState, events: Seq<StateEvent>)
    ensures
        forall|i: int|
            0 <= i < events.len() ==> {
                let a = #[trigger] run(state, events.take(i));
                let b = run(state, events.take(i + 1));
                a == b || is_edge(a, b)
            },
        rank(run(state, events)) >= rank(state),
    decreases events.len(),
{
    assert forall|i: int| 0 <= i < events.len() implies {
        let a = #[trigger] run(state, events.take(i));
        let b = run(state, events.take(i + 1));
        a == b || is_edge(a, b)
    } by {
        assert(events.take(i + 1).drop_last() =~= events.take(i));
        lemma_step_is_edge(run(state, events.take(i)), events[i]);
    }
    if events.len() > 0 {
        lemma_states_only_advance(state, events.drop_last());
        lemma_step_is_edge(run(state, events.drop_last()), events.last());
    }
}

/// The inbound packets, by the phase they belong to.
#[derive(Debug, Clone, Copy, PartialEq, Eq, Structural)]
pub enum ServerboundKind {
    Handshake,
    StatusRequest,
    StatusPingRequest,
    LoginStart,
    EncryptionResponse,
    LoginPluginResponse,
    LoginAcknowledged,
    LoginCookieResponse,
    ClientInformation,
    PluginMessage,
    AcknowledgeFinishConfiguration,
    ConfigurationPong,
    ConfirmTeleportation,
    SetPlayerPosition,
    PingRequest,
    PlayPong,
}

/// The dispatch table: which packet an inbound id is in a phase.
pub open spec fn serverbound_table(state: PlayerState, id: i32) -> Option<ServerboundKind> {
    match state {
        PlayerState::HANDSHAKE => if id == 0 {
            Some(ServerboundKind::Handshake)
        } else {
            None
        },
        PlayerState::STATUS => if id == 0 {
            Some(ServerboundKind::StatusRequest)
        } else if id == 1 {
            Some(ServerboundKind::StatusPingRequest)
        } else {
            None
        },
        PlayerState::LOGIN | PlayerState::TRANSFER => if id == 0 {
            Some(ServerboundKind::LoginStart)
        } else if id == 1 {
            Some(ServerboundKind::EncryptionResponse)
        } else if id == 2 {
            Some(ServerboundKind::LoginPluginResponse)
        } else if id == 3 {
            Some(ServerboundKind::LoginAcknowledged)
        } else if id == 4 {
            Some(ServerboundKind::LoginCookieResponse)
        } else {
            None
        },
        PlayerState::CONFIGURATION => if id == 0 {
            Some(ServerboundKind::ClientInformation)
        } else if id == 2 {
            Some(ServerboundKind::PluginMessage)
        } else if id == 3 {
            Some(ServerboundKind::AcknowledgeFinishConfiguration)
        } else if id == 5 {
            Some(ServerboundKind::ConfigurationPong)
        } else {
            None
        },
        PlayerState::PLAY => if id == 0 {
            Some(ServerboundKind::ConfirmTeleportation)
        } else if id == 0x1A {
            Some(ServerboundKind::SetPlayerPosition)
        } else if id == 0x21 {
            Some(ServerboundKind::PingRequest)
        } else if id == 0x27 {
            Some(ServerboundKind::PlayPong)
        } else {
            None
        },
    }
}

/// Looks up an inbound id in the connection's current phase; `None` for an unknown id,
/// which is dropped without closing the connection.
pub fn classify(state: PlayerState, id: i32) -> (r: Option<ServerboundKind>)
    ensures
        r == serverbound_table(state, id),
{
    match state {
        PlayerState::HANDSHAKE => if id == 0 {
            Some(ServerboundKind::Handshake)
        } else {
            None
        },
        PlayerState::STATUS => if id == 0 {
            Some(ServerboundKind::StatusRequest)
        } else if id == 1 {
            Some(ServerboundKind::StatusPingRequest)
        } else {
            None
        },
        PlayerState::LOGIN | PlayerState::TRANSFER => if id == 0 {
            Some(ServerboundKind::LoginStart)
        } else if id == 1 {
            Some(ServerboundKind::EncryptionResponse)
        } else if id == 2 {
            Some(ServerboundKind::LoginPluginResponse)
        } else if id == 3 {
            Some(ServerboundKind::LoginAcknowledged)
        } else if id == 4 {
            Some(ServerboundKind::LoginCookieResponse)
        } else {
            None
        },
        PlayerState::CONFIGURATION => if id == 0 {
            Some(ServerboundKind::ClientInformation)
        } else if id == 2 {
            Some(ServerboundKind::PluginMessage)
        } else if id == 3 {
            Some(ServerboundKind::AcknowledgeFinishConfiguration)
        } else if id == 5 {
            Some(ServerboundKind::ConfigurationPong)
        } else {
            None
        },
        PlayerState::PLAY => if id == 0 {
            Some(ServerboundKind::ConfirmTeleportation)
        } else if id == 0x1A {
            Some(ServerboundKind::SetPlayerPosition)
        } else if id == 0x21 {
            Some(ServerboundKind::PingRequest)
        } else if id == 0x27 {
            Some(ServerboundKind::PlayPong)
        } else {
            None
        },
    }
}

/// The packets whose handlers may change a connection's phase; they run before the others.
pub open spec fn changes_state(kind: ServerboundKind) -> bool {
    kind == ServerboundKind::Handshake || kind == ServerboundKind::LoginAcknowledged || kind
        == ServerboundKind::AcknowledgeFinishConfiguration
}

impl ServerboundKind {
    /// Whether this packet's handler runs in the first, phase-changing group.
    pub fn is_state_changing(&self) -> (r: bool)
        ensures
            r == changes_state(*self),
    {
        match self {
            ServerboundKind::Handshake => true,
            ServerboundKind::LoginAcknowledged => true,
            ServerboundKind::AcknowledgeFinishConfiguration => true,
            _ => false,
        }
    }
}

/// The id of the disconnect packet in a phase: 0x00 in login, 0x02 in configuration, 0x1D in
/// play; no other phase can be sent one.
pub open spec fn disconnect_id(state: PlayerState) -> Option<i32> {
    match state {
        PlayerState::LOGIN => Some(0x00),
        PlayerState::CONFIGURATION => Some(0x02),
        PlayerState::PLAY => Some(0x1D),
        _ => None,
    }
}

pub fn disconnect_packet_id(state: PlayerState) -> (r: Option<i32>)
    ensures
        r == disconnect_id(state),
{
    match state {
        PlayerState::LOGIN => Some(0x00),
        PlayerState::CONFIGURATION => Some(0x02),
        PlayerState::PLAY => Some(0x1D),
        _ => None,
    }
}

/// Whether an outbound packet is the one that announces compression (id 3 in login), which
/// always goes out uncompressed.
pub fn is_set_compression(state: PlayerState, id: i32) -> (r: bool)
    ensures
        r == (state == PlayerState::LOGIN && id == 3),
{
    state == PlayerState::LOGIN && id == 3
}

/// Milliseconds between keep-alive pings.
pub const KEEP_ALIVE_INTERVAL_MS: u64 = 5000;

/// A keep-alive is due once more than the interval has passed since the last one.
pub fn keep_alive_due(elapsed_ms: u64) -> (r: bool)
    ensures
        r == (elapsed_ms > KEEP_ALIVE_INTERVAL_MS),
{
    elapsed_ms > KEEP_ALIVE_INTERVAL_MS
}

/// The id of the keep-alive ping in a phase: 0x05 in configuration, 0x35 in play.
pub fn keep_alive_ping_id(state: PlayerState) -> (r: Option<i32>)
    ensures
        state == PlayerState::CONFIGURATION ==> r == Some(0x05i32),
        state == PlayerState::PLAY ==> r == Some(0x35i32),
        state != PlayerState::CONFIGURATION && state != PlayerState::PLAY ==> r is None,
{
    match state {
        PlayerState::CONFIGURATION => Some(0x05),
        PlayerState::PLAY => Some(0x35),
        _ => None,
    }
}

} // verus!
