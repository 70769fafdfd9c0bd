//! Per-connection and per-player state: view window, movement gate, teleport
//! correlation, keep-alive bookkeeping and the outbound packet queue.
use vstd::prelude::*;
use crate::codec::i32_be;
use crate::protocol::PlayerState;
use crate::varint::{varint_wire, VarInt};
use crate::wire::Serializable;
use crate::world::Chunk;

verus! {

/// How a client may act on the world.
#[derive(Debug, Clone, Copy, PartialEq, Eq, Structural)]
pub enum GameMode {
    Undefined,
    Survival,
    Creative,
    Adventure,
    Spectator,
}

impl GameMode {
    /// The wire number of a game mode: -1 undefined, 0 survival, 1 creative, 2 adventure,
    /// 3 spectator.
    pub open spec fn spec_id(self) -> i32 {
        match self {
            GameMode::Undefined => -1i32,
            GameMode::Survival => 0,
            GameMode::Creative => 1,
            GameMode::Adventure => 2,
            GameMode::Spectator => 3,
        }
    }

    pub fn id(&self) -> (r: i32)
        ensures
            r == self.spec_id(),
    {
        match self {
            GameMode::Undefined => -1,
            GameMode::Survival => 0,
            GameMode::Creative => 1,
            GameMode::Adventure => 2,
            GameMode::Spectator => 3,
        }
    }

    /// The game mode with wire number `v`; an unknown number is survival.
    pub fn from_id(v: i32) -> (r: GameMode)
        ensures
            -1 <= v <= 3 ==> r.spec_id() == v,
            !(-1 <= v <= 3) ==> r == GameMode::Survival,
    {
        if v == -1 {
            GameMode::Undefined
        } else if v == 1 {
            GameMode::Creative
        } else if v == 2 {
            GameMode::Adventure
        } else if v == 3 {
            GameMode::Spectator
        } else {
            GameMode::Survival
        }
    }

    /// Whether the movement gate lets this mode move any distance.
    pub open spec fn moves_freely(self) -> bool {
        self == GameMode::Creative || self == GameMode::Spectator
    }
}

/// The hand a client uses.
#[derive(Debug, Clone, Copy, PartialEq, Eq, Structural)]
pub enum MainHand {
    Left,
    Right,
}

impl MainHand {
    /// 0 is the left hand, anything else the right.
    pub fn from_id(v: i32) -> (r: MainHand)
        ensures
            r == (if v == 0 { MainHand::Left } else { MainHand::Right }),
    {
        if v == 0 {
            MainHand::Left
        } else {
            MainHand::Right
        }
    }
}

/// A position and facing, each coordinate kept as the IEEE-754 bits of its number
/// (`f64` for x, y, z; `f32` for yaw and pitch).
#[derive(Debug, Clone, Copy, PartialEq, Eq, Hash, Structural)]
pub struct Location {
    pub x: u64,
    pub y: u64,
    pub z: u64,
    pub yaw: u32,
    pub pitch: u32,
}

/// A server-pushed position change waiting for the client's acknowledgement.
#[derive(Debug, Clone, Copy, PartialEq, Eq, Structural)]
pub struct TeleportRequest {
    pub id: i32,
    pub target: Location,
    /// Not yet sent to the client.
    pub unsent: bool,
}

/// A packet queued for a connection: its id and payload.
#[derive(Debug, Clone, PartialEq, Eq)]
pub struct OutgoingPacket {
    pub id: i32,
    pub payload: Vec<u8>,
}

pub open spec fn packets_model(p: Seq<OutgoingPacket>) -> Seq<(i32, Seq<u8>)> {
    p.map_values(|q: OutgoingPacket| (q.id, q.payload@))
}

/// Whether chunk `c` is within `r` chunks of `center` on both axes.
pub open spec fn in_square(c: (i32, i32), center: (i32, i32), r: int) -> bool {
    center.0 - r <= c.0 <= center.0 + r && center.1 - r <= c.1 <= center.1 + r
}

/// `a` comes before `b`, x first, then z.
pub open spec fn lex_less(a: (i32, i32), b: (i32, i32)) -> bool {
    a.0 < b.0 || (a.0 == b.0 && a.1 < b.1)
}

/// The chunks within `r` of `from` but not within `r` of `other`, in x-major order,
/// each once.
pub fn square_difference(from: (i32, i32), other: (i32, i32), r: u8) -> (out: Vec<(i32, i32)>)
    ensures
        forall|c: (i32, i32)| out@.contains(c) <==> in_square(c, from, r as int) && !in_square(c, other, r as int),
        forall|i: int, j: int| 0 <= i < j < out@.len() ==> lex_less(#[trigger] out@[i], #[trigger] out@[j]),
        out@.no_duplicates(),
{
    let rr = r as i64;
    let x_lo: i64 = if from.0 as i64 - rr < i32::MIN as i64 { i32::MIN as i64 } else { from.0 as i64 - rr };
    let x_hi: i64 = if from.0 as i64 + rr > i32::MAX as i64 { i32::MAX as i64 } else { from.0 as i64 + rr };
    let z_lo: i64 = if from.1 as i64 - rr < i32::MIN as i64 { i32::MIN as i64 } else { from.1 as i64 - rr };
    let z_hi: i64 = if from.1 as i64 + rr > i32::MAX as i64 { i32::MAX as i64 } else { from.1 as i64 + rr };
    let mut out: Vec<(i32, i32)> = Vec::new();
    let mut x: i64 = x_lo;
    while x <= x_hi
        invariant
            x_lo <= x <= x_hi + 1,
            x_lo >= i32::MIN,
            x_hi <= i32::MAX,
            z_lo >= i32::MIN,
            z_hi <= i32::MAX,
            x_lo == if from.0 - rr < i32::MIN { i32::MIN as int } else { from.0 - rr },
            x_hi == if from.0 + rr > i32::MAX { i32::MAX as int } else { from.0 + rr },
            z_lo == if from.1 - rr < i32::MIN { i32::MIN as int } else { from.1 - rr },
            z_hi == if from.1 + rr > i32::MAX { i32::MAX as int } else { from.1 + rr },
            rr == r,
            forall|c: (i32, i32)| out@.contains(c) <==> (in_square(c, from, r as int) && !in_square(c, other, r as int) && c.0 < x),
            forall|i: int, j: int| 0 <= i < j < out@.len() ==> lex_less(#[trigger] out@[i], #[trigger] out@[j]),
            forall|i: int| 0 <= i < out@.len() ==> (#[trigger] out@[i]).0 < x,
        decreases x_hi + 1 - x,
    {
        let mut z: i64 = z_lo;
        while z <= z_hi
            invariant
                x_lo <= x <= x_hi,
                z_lo <= z <= z_hi + 1,
                x_lo >= i32::MIN,
                x_hi <= i32::MAX,
                z_lo >= i32::MIN,
                z_hi <= i32::MAX,
                x_lo == if from.0 - rr < i32::MIN { i32::MIN as int } else { from.0 - rr },
                x_hi == if from.0 + rr > i32::MAX { i32::MAX as int } else { from.0 + rr },
                z_lo == if from.1 - rr < i32::MIN { i32::MIN as int } else { from.1 - rr },
                z_hi == if from.1 + rr > i32::MAX { i32::MAX as int } else { from.1 + rr },
                rr == r,
                forall|c: (i32, i32)| out@.contains(c) <==> (in_square(c, from, r as int) && !in_square(c, other, r as int) && (c.0 < x || (c.0 == x && c.1 < z))),
                forall|i: int, j: int| 0 <= i < j < out@.len() ==> lex_less(#[trigger] out@[i], #[trigger] out@[j]),
                forall|i: int| 0 <= i < out@.len() ==> lex_less(#[trigger] out@[i], (x as i32, z as i32)) || (z > z_hi && (out@[i].0 < x || out@[i].0 == x)),
            decreases z_hi + 1 - z,
        {
            let c: (i32, i32) = (x as i32, z as i32);
            let inside_other = other.0 as i64 - rr <= x && x <= other.0 as i64 + rr && other.1 as i64 - rr <= z && z <= other.1 as i64 + rr;
            let ghost before = out@;
            if !inside_other {
                out.push(c);
                proof {
                    assert forall|k: (i32, i32)| out@.contains(k) <==> (in_square(k, from, r as int) && !in_square(k, other, r as int) && (k.0 < x || (k.0 == x && k.1 < z + 1))) by {
                        if out@.contains(k) {
                            let idx = choose|idx: int| 0 <= idx < out@.len() && out@[idx] == k;
                            if idx < before.len() {
                                assert(before.contains(k));
                            }
                        }
                        if in_square(k, from, r as int) && !in_square(k, other, r as int) && (k.0 < x || (k.0 == x && k.1 < z + 1)) {
                            if k.0 == x && k.1 == z {
                                assert(out@[before.len() as int] == k);
                            } else {
                                assert(before.contains(k));
                                let idx = choose|idx: int| 0 <= idx < before.len() && before[idx] == k;
                                assert(out@[idx] == k);
                            }
                        }
                    }
                }
            } else {
                proof {
                    assert forall|k: (i32, i32)| out@.contains(k) <==> (in_square(k, from, r as int) && !in_square(k, other, r as int) && (k.0 < x || (k.0 == x && k.1 < z + 1))) by {
                        if k.0 == x && k.1 == z {
                            assert(in_square(k, other, r as int));
                        }
                    }
                }
            }
            z = z + 1;
        }
        proof {
            assert forall|k: (i32, i32)| out@.contains(k) <==> (in_square(k, from, r as int) && !in_square(k, other, r as int) && k.0 < x + 1) by {
                if k.0 == x && in_square(k, from, r as int) {
                    assert(k.1 <= z_hi);
                }
            }
        }
        x = x + 1;
    }
    proof {
        assert forall|c: (i32, i32)| in_square(c, from, r as int) implies c.0 < x by {}
        assert forall|i: int, j: int| 0 <= i < out@.len() && 0 <= j < out@.len() && i != j implies out@[i] != out@[j] by {
            if i < j {
                assert(lex_less(out@[i], out@[j]));
            } else {
                assert(lex_less(out@[j], out@[i]));
            }
        }
    }
    out
}

/// The id of the packet that moves the client's view centre.
pub const SET_CENTER_CHUNK_ID: i32 = 0x54;

/// The id of the packet that drops a chunk on the client.
pub const UNLOAD_CHUNK_ID: i32 = 0x21;

/// The id of the packet that sends a chunk with its light.
pub const CHUNK_DATA_ID: i32 = 0x27;

pub open spec fn center_packet(c: (i32, i32)) -> (i32, Seq<u8>) {
    (0x54, varint_wire(c.0) + varint_wire(c.1))
}

pub open spec fn unload_packets(l: Seq<(i32, i32)>) -> Seq<(i32, Seq<u8>)> {
    l.map_values(|c: (i32, i32)| (0x21i32, i32_be(c.0) + i32_be(c.1)))
}

pub open spec fn load_packets(l: Seq<(i32, i32)>, chunk: Chunk) -> Seq<(i32, Seq<u8>)> {
    l.map_values(
        |c: (i32, i32)|
            (
                0x27i32,
                crate::world::chunk_payload(
                    c.0,
                    c.1,
                    chunk.sections(),
                    chunk.world_surface(),
                    chunk.motion_blocking(),
                ),
            ),
    )
}

/// What a position update did.
#[derive(Debug, PartialEq, Eq)]
pub enum MoveOutcome {
    /// The move was too far for the game mode: a teleport back was queued under the given
    /// id, unless that id was already outstanding (`accepted` false).
    Teleported { accepted: bool },
    /// The player moved; where the chunk changed, the chunks that left and entered the view.
    Moved { center: Option<(i32, i32)>, unloaded: Vec<(i32, i32)>, loaded: Vec<(i32, i32)> },
}

/// A player: a connection in configuration or play, with its settings, position and queues.
pub struct Player {
    username: String,
    display_name: String,
    uuid: u128,
    brand: String,
    pub e_id: u64,
    view_distance: u8,
    max_view_distance: u8,
    locale: String,
    main_hand: MainHand,
    game_mode: GameMode,
    location: Location,
    chunk_x: i32,
    chunk_z: i32,
    state: PlayerState,
    teleport_requests: Vec<TeleportRequest>,
    last_keep_alive_id: i32,
    outbox: Vec<OutgoingPacket>,
}

/// No two requests share an id.
pub open spec fn ids_unique(r: Seq<TeleportRequest>) -> bool {
    forall|i: int, j: int| 0 <= i < r.len() && 0 <= j < r.len() && i != j ==> #[trigger] r[i].id != #[trigger] r[j].id
}

/// Some request has this id.
pub open spec fn has_id(r: Seq<TeleportRequest>, id: i32) -> bool {
    exists|i: int| 0 <= i < r.len() && #[trigger] r[i].id == id
}

impl Player {
    pub closed spec fn view_distance_spec(&self) -> u8 {
        self.view_distance
    }

    pub closed spec fn max_view_distance_spec(&self) -> u8 {
        self.max_view_distance
    }

    pub closed spec fn state_spec(&self) -> PlayerState {
        self.state
    }

    pub closed spec fn game_mode_spec(&self) -> GameMode {
        self.game_mode
    }

    pub closed spec fn location_spec(&self) -> Location {
        self.location
    }

    pub closed spec fn chunk_spec(&self) -> (i32, i32) {
        (self.chunk_x, self.chunk_z)
    }

    pub closed spec fn requests(&self) -> Seq<TeleportRequest> {
        self.teleport_requests@
    }

    pub closed spec fn keep_alive_id_spec(&self) -> i32 {
        self.last_keep_alive_id
    }

    pub closed spec fn outbox_spec(&self) -> Seq<(i32, Seq<u8>)> {
        packets_model(self.outbox@)
    }

    pub closed spec fn brand_spec(&self) -> Seq<char> {
        self.brand@
    }

    /// The view distance never exceeds the server's maximum, teleport ids are unique, and a
    /// player only exists in configuration or play.
    pub open spec fn wf(&self) -> bool {
        &&& self.view_distance_spec() <= self.max_view_distance_spec()
        &&& ids_unique(self.requests())
        &&& (self.state_spec() == PlayerState::CONFIGURATION || self.state_spec() == PlayerState::PLAY)
    }

    /// A player entering configuration, in survival at the origin, with view distance 0.
    pub fn new(username: String, uuid: u128, locale: String, main_hand: MainHand, e_id: u64, max_view_distance: u8) -> (r: Player)
        ensures
            r.wf(),
            r.state_spec() == PlayerState::CONFIGURATION,
            r.view_distance_spec() == 0,
            r.max_view_distance_spec() == max_view_distance,
            r.game_mode_spec() == GameMode::Survival,
            r.chunk_spec() == (0i32, 0i32),
            r.requests().len() == 0,
            r.outbox_spec().len() == 0,
    {
        let display_name = username.clone();
        Player {
            username,
            display_name,
            uuid,
            brand: String::new(),
            e_id,
            view_distance: 0,
            max_view_distance,
            locale,
            main_hand,
            game_mode: GameMode::Survival,
            location: Location { x: 0, y: 0, z: 0, yaw: 0, pitch: 0 },
            chunk_x: 0,
            chunk_z: 0,
            state: PlayerState::CONFIGURATION,
            teleport_requests: Vec::new(),
            last_keep_alive_id: 0,
            outbox: Vec::new(),
        }
    }

    pub fn uuid(&self) -> u128 {
        self.uuid
    }

    pub fn state(&self) -> (r: PlayerState)
        ensures
            r == self.state_spec(),
    {
        self.state
    }

    /// Records the client's requested view distance, capped by the server's maximum.
    pub fn update_view_distance(&mut self, requested: u8)
        requires
            old(self).wf(),
        ensures
            final(self).wf(),
            final(self).view_distance_spec() == if requested <= old(self).max_view_distance_spec() {
                requested
            } else {
                old(self).max_view_distance_spec()
            },
            final(self).max_view_distance_spec() == old(self).max_view_distance_spec(),
    {
        self.view_distance = if requested <= self.max_view_distance {
            requested
        } else {
            self.max_view_distance
        };
    }

    pub fn view_distance(&self) -> (r: u8)
        ensures
            r == self.view_distance_spec(),
    {
        self.view_distance
    }

    /// The view distance used against a server limit: the smaller of the two.
    pub fn actual_view_distance(&self, server_view_distance: u8) -> (r: u8)
        ensures
            r <= server_view_distance,
            r <= self.view_distance_spec(),
            r == self.view_distance_spec() || r == server_view_distance,
    {
        if self.view_distance < server_view_distance {
            self.view_distance
        } else {
            server_view_distance
        }
    }

    pub fn update_brand(&mut self, brand: String)
        ensures
            final(self).brand_spec() == brand@,
            final(self).wf() == old(self).wf(),
    {
        self.brand = brand;
    }

    pub fn brand(&self) -> (r: &String)
        ensures
            r@ == self.brand_spec(),
    {
        &self.brand
    }

    pub fn set_game_mode(&mut self, game_mode: GameMode)
        ensures
            final(self).game_mode_spec() == game_mode,
            final(self).wf() == old(self).wf(),
    {
        self.game_mode = game_mode;
    }

    pub fn game_mode(&self) -> (r: GameMode)
        ensures
            r == self.game_mode_spec(),
    {
        self.game_mode
    }

    pub fn location(&self) -> (r: Location)
        ensures
            r == self.location_spec(),
    {
        self.location
    }

    pub fn set_location(&mut self, location: Location)
        ensures
            final(self).location_spec() == location,
            final(self).wf() == old(self).wf(),
            final(self).requests() == old(self).requests(),
    {
        self.location = location;
    }

    /// Moves the connection along the phase diagram.
    pub fn apply_event(&mut self, event: crate::protocol::StateEvent) -> (r: Result<(), crate::protocol::TransitionError>)
        requires
            old(self).wf(),
        ensures
            final(self).wf(),
            match crate::protocol::step(old(self).state_spec(), event) {
                Ok(s) => r is Ok && final(self).state_spec() == s,
                Err(e) => r == Err::<(), crate::protocol::TransitionError>(e) && final(self).state_spec() == old(self).state_spec(),
            },
    {
        crate::protocol::transition(&mut self.state, event)
    }

    /// Queues a teleport to `target` under `id`; refused (false) where a request with that id
    /// is still outstanding, so that ids stay unique.
    pub fn teleport(&mut self, target: Location, id: i32) -> (r: bool)
        requires
            old(self).wf(),
        ensures
            final(self).wf(),
            r == !has_id(old(self).requests(), id),
            r ==> final(self).requests() == old(self).requests().push(TeleportRequest { id, target, unsent: true }),
            !r ==> final(self).requests() == old(self).requests(),
            final(self).location_spec() == old(self).location_spec(),
            final(self).outbox_spec() == old(self).outbox_spec(),
            final(self).game_mode_spec() == old(self).game_mode_spec(),
            final(self).chunk_spec() == old(self).chunk_spec(),
            final(self).state_spec() == old(self).state_spec(),
            final(self).view_distance_spec() == old(self).view_distance_spec(),
    {
        let mut i: usize = 0;
        while i < self.teleport_requests.len()
            invariant
                i <= self.teleport_requests@.len(),
                *self == *old(self),
                old(self).wf(),
                ids_unique(old(self).teleport_requests@),
                forall|k: int| 0 <= k < i ==> #[trigger] self.teleport_requests@[k].id != id,
            decreases self.teleport_requests@.len() - i,
        {
            if self.teleport_requests[i].id == id {
                return false;
            }
            i = i + 1;
        }
        self.teleport_requests.push(TeleportRequest { id, target, unsent: true });
        proof {
            let q = self.teleport_requests@;
            assert forall|a: int, b: int| 0 <= a < q.len() && 0 <= b < q.len() && a != b implies #[trigger] q[a].id != #[trigger] q[b].id by {
                if a < q.len() - 1 && b < q.len() - 1 {
                    assert(old(self).teleport_requests@[a] == q[a]);
                    assert(old(self).teleport_requests@[b] == q[b]);
                }
            }
        }
        true
    }

    /// Whether a teleport request with this id is outstanding.
    pub fn has_teleport(&self, id: i32) -> (r: bool)
        ensures
            r == has_id(self.requests(), id),
    {
        let mut i: usize = 0;
        while i < self.teleport_requests.len()
            invariant
                i <= self.teleport_requests@.len(),
                forall|k: int| 0 <= k < i ==> #[trigger] self.teleport_requests@[k].id != id,
            decreases self.teleport_requests@.len() - i,
        {
            if self.teleport_requests[i].id == id {
                return true;
            }
            i = i + 1;
        }
        false
    }

    /// Marks every unsent teleport as sent and gives them, in order, to be synchronised.
    pub fn take_unsent_teleports(&mut self) -> (r: Vec<TeleportRequest>)
        requires
            old(self).wf(),
        ensures
            final(self).wf(),
            r@ == old(self).requests().filter(|t: TeleportRequest| t.unsent),
            final(self).requests() == old(self).requests().map_values(
                |t: TeleportRequest| TeleportRequest { id: t.id, target: t.target, unsent: false },
            ),
            final(self).outbox_spec() == old(self).outbox_spec(),
    {
        let mut out: Vec<TeleportRequest> = Vec::new();
        let mut i: usize = 0;
        let ghost old_reqs = self.teleport_requests@;
        while i < self.teleport_requests.len()
            invariant
                i <= self.teleport_requests@.len(),
                self.teleport_requests@.len() == old_reqs.len(),
                forall|k: int| 0 <= k < i ==> #[trigger] self.teleport_requests@[k] == (TeleportRequest { id: old_reqs[k].id, target: old_reqs[k].target, unsent: false }),
                forall|k: int| i <= k < old_reqs.len() ==> #[trigger] self.teleport_requests@[k] == old_reqs[k],
                out@ == old_reqs.take(i as int).filter(|t: TeleportRequest| t.unsent),
                self.view_distance <= self.max_view_distance,
                self.state == old(self).state,
                self.outbox == old(self).outbox,
                ids_unique(old_reqs),
                old_reqs == old(self).teleport_requests@,
                self.view_distance == old(self).view_distance,
                self.max_view_distance == old(self).max_view_distance,
            decreases self.teleport_requests@.len() - i,
        {
            let t = self.teleport_requests[i];
            proof {
                assert(old_reqs.take(i + 1).drop_last() =~= old_reqs.take(i as int));
                reveal(Seq::filter);
            }
            if t.unsent {
                out.push(t);
            }
            self.teleport_requests.set(i, TeleportRequest { id: t.id, target: t.target, unsent: false });
            i = i + 1;
        }
        proof {
            assert(old_reqs.take(old_reqs.len() as int) =~= old_reqs);
            assert(self.teleport_requests@ =~= old_reqs.map_values(
                |t: TeleportRequest| TeleportRequest { id: t.id, target: t.target, unsent: false },
            ));
            let q = self.teleport_requests@;
            assert forall|a: int, b: int| 0 <= a < q.len() && 0 <= b < q.len() && a != b implies #[trigger] q[a].id != #[trigger] q[b].id by {
                assert(old_reqs[a].id != old_reqs[b].id);
            }
        }
        out
    }

    /// Handles the client's acknowledgement of teleport `id`: the sent request with that id is
    /// removed and its target returned, for the caller to apply; `None` where there is no
    /// such request (unsent, already acknowledged, or unknown), and nothing changes.
    pub fn teleport_acknowledge(&mut self, id: i32) -> (r: Option<Location>)
        requires
            old(self).wf(),
        ensures
            final(self).wf(),
            match r {
                Some(target) => exists|i: int|
                    0 <= i < old(self).requests().len() && #[trigger] old(self).requests()[i] == (TeleportRequest { id, target, unsent: false })
                        && final(self).requests() == old(self).requests().remove(i),
                None => final(self).requests() == old(self).requests() && forall|i: int|
                    0 <= i < old(self).requests().len() ==> !(#[trigger] old(self).requests()[i].id == id && !old(self).requests()[i].unsent),
            },
            final(self).location_spec() == old(self).location_spec(),
    {
        let mut i: usize = 0;
        while i < self.teleport_requests.len()
            invariant
                i <= self.teleport_requests@.len(),
                *self == *old(self),
                old(self).wf(),
                ids_unique(old(self).teleport_requests@),
                self.teleport_requests@ == old(self).teleport_requests@,
                forall|k: int| 0 <= k < i ==> !(#[trigger] self.teleport_requests@[k].id == id && !self.teleport_requests@[k].unsent),
            decreases self.teleport_requests@.len() - i,
        {
            let t = self.teleport_requests[i];
            if t.id == id && !t.unsent {
                let removed = self.teleport_requests.remove(i);
                proof {
                    let q = self.teleport_requests@;
                    let o = old(self).teleport_requests@;
                    assert forall|a: int, b: int| 0 <= a < q.len() && 0 <= b < q.len() && a != b implies #[trigger] q[a].id != #[trigger] q[b].id by {
                        let oa = if a < i { a } else { a + 1 };
                        let ob = if b < i { b } else { b + 1 };
                        assert(q[a] == o[oa]);
                        assert(q[b] == o[ob]);
                        assert(o[oa].id != o[ob].id);
                    }
                    assert(o[i as int] == (TeleportRequest { id, target: removed.target, unsent: false }));
                }
                return Some(removed.target);
            }
            i = i + 1;
        }
        None
    }

    /// Records a fresh keep-alive id and queues the ping of the player's phase
    /// (0x05 in configuration, 0x35 in play) carrying it.
    pub fn send_keep_alive(&mut self, id: i32)
        requires
            old(self).wf(),
        ensures
            final(self).wf(),
            final(self).keep_alive_id_spec() == id,
            final(self).outbox_spec() == old(self).outbox_spec().push(
                (if old(self).state_spec() == PlayerState::CONFIGURATION { 0x05i32 } else { 0x35i32 }, i32_be(id)),
            ),
    {
        self.last_keep_alive_id = id;
        let pid: i32 = if self.state == PlayerState::CONFIGURATION {
            0x05
        } else {
            0x35
        };
        let mut payload: Vec<u8> = Vec::new();
        id.serialize(&mut payload);
        self.add_packet(pid, payload);
    }

    /// Whether a pong answers the last keep-alive sent.
    pub fn keep_alive_matches(&self, id: i32) -> (r: bool)
        ensures
            r == (id == self.keep_alive_id_spec()),
    {
        id == self.last_keep_alive_id
    }

    /// Queues a packet for this player.
    pub fn add_packet(&mut self, id: i32, payload: Vec<u8>)
        ensures
            final(self).outbox_spec() == old(self).outbox_spec().push((id, payload@)),
            final(self).wf() == old(self).wf(),
            final(self).requests() == old(self).requests(),
            final(self).location_spec() == old(self).location_spec(),
            final(self).chunk_spec() == old(self).chunk_spec(),
            final(self).game_mode_spec() == old(self).game_mode_spec(),
            final(self).view_distance_spec() == old(self).view_distance_spec(),
            final(self).state_spec() == old(self).state_spec(),
            final(self).keep_alive_id_spec() == old(self).keep_alive_id_spec(),
    {
        self.outbox.push(OutgoingPacket { id, payload });
        assert(packets_model(self.outbox@) =~= packets_model(old(self).outbox@).push((id, payload@)));
    }

    /// Hands over every queued packet, in order, and empties the queue.
    pub fn drain_outbox(&mut self) -> (r: Vec<OutgoingPacket>)
        ensures
            packets_model(r@) == old(self).outbox_spec(),
            final(self).outbox_spec().len() == 0,
            final(self).wf() == old(self).wf(),
    {
        let mut out: Vec<OutgoingPacket> = Vec::new();
        std::mem::swap(&mut out, &mut self.outbox);
        assert(packets_model(self.outbox@) =~= Seq::<(i32, Seq<u8>)>::empty());
        out
    }

    /// The movement gate. `target` is where the client says it is, `far` whether that is at
    /// least 0.25 blocks from the current location, `target_chunk` the chunk holding it.
    /// A far move outside creative and spectator queues a teleport under `teleport_id`
    /// instead. Any other move is applied; where the chunk changes, the view centre moves
    /// and the chunks that leave and enter the view square are unloaded and sent (from
    /// `chunk`, the generated column).
    pub fn handle_move(&mut self, target: Location, far: bool, target_chunk: (i32, i32), teleport_id: i32, chunk: &Chunk) -> (r: MoveOutcome)
        requires
            old(self).wf(),
            chunk.wf(),
        ensures
            final(self).wf(),
            far && !old(self).game_mode_spec().moves_freely() ==> (r matches MoveOutcome::Teleported { accepted }
                && accepted == !has_id(old(self).requests(), teleport_id)
                && (accepted ==> final(self).requests() == old(self).requests().push(TeleportRequest { id: teleport_id, target, unsent: true }))
                && (!accepted ==> final(self).requests() == old(self).requests())
                && final(self).location_spec() == old(self).location_spec()
                && final(self).chunk_spec() == old(self).chunk_spec()
                && final(self).outbox_spec() == old(self).outbox_spec()),
            !(far && !old(self).game_mode_spec().moves_freely()) ==> (r matches MoveOutcome::Moved { center, unloaded, loaded }
                && final(self).location_spec() == target
                && final(self).requests() == old(self).requests()
                && final(self).chunk_spec() == target_chunk
                && (target_chunk == old(self).chunk_spec() ==> center is None && unloaded@.len() == 0 && loaded@.len() == 0
                    && final(self).outbox_spec() == old(self).outbox_spec())
                && (target_chunk != old(self).chunk_spec() ==> center == Some(target_chunk)
                    && (forall|c: (i32, i32)| unloaded@.contains(c) <==> in_square(c, old(self).chunk_spec(), old(self).view_distance_spec() as int)
                        && !in_square(c, target_chunk, old(self).view_distance_spec() as int))
                    && (forall|c: (i32, i32)| loaded@.contains(c) <==> in_square(c, target_chunk, old(self).view_distance_spec() as int)
                        && !in_square(c, old(self).chunk_spec(), old(self).view_distance_spec() as int))
                    && unloaded@.no_duplicates() && loaded@.no_duplicates()
                    && final(self).outbox_spec() == old(self).outbox_spec().push(center_packet(target_chunk))
                        + unload_packets(unloaded@) + load_packets(loaded@, *chunk))),
    {
        if far && !(self.game_mode == GameMode::Creative || self.game_mode == GameMode::Spectator) {
            let accepted = self.teleport(target, teleport_id);
            return MoveOutcome::Teleported { accepted };
        }
        let old_chunk = (self.chunk_x, self.chunk_z);
        self.location = target;
        if target_chunk.0 == self.chunk_x && target_chunk.1 == self.chunk_z {
            return MoveOutcome::Moved { center: None, unloaded: Vec::new(), loaded: Vec::new() };
        }
        self.chunk_x = target_chunk.0;
        self.chunk_z = target_chunk.1;
        let mut center: Vec<u8> = Vec::new();
        VarInt(target_chunk.0).serialize(&mut center);
        VarInt(target_chunk.1).serialize(&mut center);
        self.add_packet(SET_CENTER_CHUNK_ID, center);
        let unloaded = square_difference(old_chunk, target_chunk, self.view_distance);
        let loaded = square_difference(target_chunk, old_chunk, self.view_distance);
        let ghost base = self.outbox_spec();
        let mut i: usize = 0;
        while i < unloaded.len()
            invariant
                i <= unloaded@.len(),
                self.outbox_spec() == base + unload_packets(unloaded@.take(i as int)),
                self.wf(),
                self.location_spec() == target,
                self.chunk_spec() == target_chunk,
                self.requests() == old(self).requests(),
                self.view_distance_spec() == old(self).view_distance_spec(),
            decreases unloaded@.len() - i,
        {
            let c = unloaded[i];
            let mut payload: Vec<u8> = Vec::new();
            c.0.serialize(&mut payload);
            c.1.serialize(&mut payload);
            self.add_packet(UNLOAD_CHUNK_ID, payload);
            proof {
                assert(unload_packets(unloaded@.take(i + 1)) =~= unload_packets(unloaded@.take(i as int)).push((0x21i32, i32_be(c.0) + i32_be(c.1))));
            }
            i = i + 1;
        }
        assert(unloaded@.take(unloaded@.len() as int) =~= unloaded@);
        let ghost base2 = self.outbox_spec();
        let mut j: usize = 0;
        while j < loaded.len()
            invariant
                j <= loaded@.len(),
                chunk.wf(),
                self.outbox_spec() == base2 + load_packets(loaded@.take(j as int), *chunk),
                self.wf(),
                self.location_spec() == target,
                self.chunk_spec() == target_chunk,
                self.requests() == old(self).requests(),
                self.view_distance_spec() == old(self).view_distance_spec(),
            decreases loaded@.len() - j,
        {
            let c = loaded[j];
            let payload = chunk.packet_payload(c.0, c.1);
            self.add_packet(CHUNK_DATA_ID, payload);
            proof {
                assert(load_packets(loaded@.take(j + 1), *chunk) =~= load_packets(loaded@.take(j as int), *chunk).push((0x27i32, crate::world::chunk_payload(c.0, c.1, chunk.sections(), chunk.world_surface(), chunk.motion_blocking()))));
            }
            j = j + 1;
        }
        assert(loaded@.take(loaded@.len() as int) =~= loaded@);
        assert(self.outbox_spec() =~= old(self).outbox_spec().push(center_packet(target_chunk)) + unload_packets(unloaded@) + load_packets(loaded@, *chunk));
        MoveOutcome::Moved { center: Some(target_chunk), unloaded, loaded }
    }
}

impl Player {
    /// Queues the disconnect packet of the player's phase (0x02 in configuration, 0x1D in
    /// play) carrying the message as a network-form NBT text component; false, with nothing
    /// queued, where the component cannot be written.
    pub fn kick(&mut self, message: &crate::text::Component) -> (r: bool)
        requires
            old(self).wf(),
            crate::nbt::sizes_fit(message.to_nbt_spec()),
        ensures
            final(self).wf(),
            r == crate::nbt::homogeneous(message.to_nbt_spec()),
            !r ==> final(self).outbox_spec() == old(self).outbox_spec(),
            r ==> final(self).outbox_spec() == old(self).outbox_spec().push(
                (if old(self).state_spec() == PlayerState::CONFIGURATION { 0x02i32 } else { 0x1Di32 },
                crate::nbt::document_bytes(None, message.to_nbt_spec())),
            ),
    {
        let doc = crate::nbt::NBT::new_network(message.to_nbt());
        let id: i32 = if self.state == PlayerState::CONFIGURATION {
            0x02
        } else {
            0x1D
        };
        match doc.as_bytes() {
            Ok(b) => {
                self.add_packet(id, b);
                true
            },
            Err(_) => false,
        }
    }
}

impl Player {
    /// Handles a plugin message: on the `minecraft:brand` channel the data, where it is
    /// UTF-8, becomes the client's brand (true); other messages change nothing (false).
    pub fn handle_plugin_message(&mut self, msg: crate::packets::PluginMessage) -> (r: bool)
        requires
            old(self).wf(),
        ensures
            final(self).wf(),
            r == (msg.channel.namespace@ == crate::types::minecraft_chars() && msg.channel.key@ == "brand"@
                && vstd::utf8::valid_utf8(msg.data.0@)),
            r ==> final(self).brand_spec() == vstd::utf8::decode_utf8(msg.data.0@),
            !r ==> final(self).brand_spec() == old(self).brand_spec(),
            final(self).outbox_spec() == old(self).outbox_spec(),
    {
        proof {
            reveal_strlit("minecraft");
            reveal_strlit("brand");
            assert("minecraft"@ =~= crate::types::minecraft_chars());
        }
        let ns = String::from_str("minecraft");
        let key = String::from_str("brand");
        if msg.channel.namespace == ns && msg.channel.key == key {
            match crate::wire::string_from_utf8(msg.data.0) {
                Some(brand) => {
                    self.brand = brand;
                    true
                },
                None => false,
            }
        } else {
            false
        }
    }

    /// Handles a keep-alive answer: where its id is not the last one sent, the player is
    /// kicked with "Ping response id was not the same as the sent request's id". Gives
    /// whether the id matched.
    pub fn handle_pong(&mut self, id: i32) -> (r: bool)
        requires
            old(self).wf(),
        ensures
            final(self).wf(),
            r == (id == old(self).keep_alive_id_spec()),
            r ==> final(self).outbox_spec() == old(self).outbox_spec(),
            !r ==> final(self).outbox_spec() == old(self).outbox_spec().push(
                (
                    if old(self).state_spec() == PlayerState::CONFIGURATION { 0x02i32 } else { 0x1Di32 },
                    crate::nbt::document_bytes(None, pong_mismatch_message()),
                ),
            ),
    {
        if id == self.last_keep_alive_id {
            return true;
        }
        proof {
            lemma_pong_message_fits();
        }
        let message = crate::text::Component::new_with_color(
            "Ping response id was not the same as the sent request's id",
            crate::text::TextColor::Red,
        );
        let doc = crate::nbt::NBT::new_network(message.to_nbt());
        proof {
            reveal_strlit("red");
            assert(message.to_nbt_spec()->Compound_0 =~= pong_mismatch_message()->Compound_0);
            assert(doc.root_tag.model() == pong_mismatch_message());
        }
        let pid: i32 = if self.state == PlayerState::CONFIGURATION {
            0x02
        } else {
            0x1D
        };
        let mut payload: Vec<u8> = Vec::new();
        if doc.fits() {
            match doc.as_bytes() {
                Ok(b) => payload = b,
                Err(_) => {},
            }
        }
        self.add_packet(pid, payload);
        false
    }
}

/// The text of the disconnect for a keep-alive answer with the wrong id.
pub open spec fn pong_mismatch_text() -> Seq<char> {
    "Ping response id was not the same as the sent request's id"@
}

/// That disconnect as an NBT text component: its text, coloured red.
pub open spec fn pong_mismatch_message() -> crate::nbt::NbtValue {
    crate::nbt::NbtValue::Compound(
        seq![
            ("text"@, crate::nbt::NbtValue::Str(pong_mismatch_text())),
            ("color"@, crate::nbt::NbtValue::Str("red"@)),
        ],
    )
}

pub proof fn lemma_pong_message_fits()
    ensures
        crate::nbt::sizes_fit(pong_mismatch_message()),
        crate::nbt::homogeneous(pong_mismatch_message()),
{
    reveal_strlit("Ping response id was not the same as the sent request's id");
    reveal_strlit("text");
    reveal_strlit("color");
    reveal_strlit("red");
    crate::nbt::lemma_encode_utf8_len(pong_mismatch_text());
    crate::nbt::lemma_encode_utf8_len("text"@);
    crate::nbt::lemma_encode_utf8_len("color"@);
    crate::nbt::lemma_encode_utf8_len("red"@);
    let c = pong_mismatch_message()->Compound_0;
    let c1 = c.drop_last();
    assert(c1.last() == c[0]);
    assert(c1.drop_last() =~= Seq::<(Seq<char>, crate::nbt::NbtValue)>::empty());
    assert(crate::nbt::sizes_fit(c[0].1));
    assert(crate::nbt::sizes_fit(c[1].1));
    assert(crate::nbt::entries_sizes_fit(c1.drop_last()));
    assert(crate::nbt::entries_sizes_fit(c1));
    assert(crate::nbt::entries_sizes_fit(c));
    assert(crate::nbt::homogeneous(c[0].1));
    assert(crate::nbt::homogeneous(c[1].1));
    assert(crate::nbt::entries_homogeneous(c1.drop_last()));
    assert(crate::nbt::entries_homogeneous(c1));
    assert(crate::nbt::entries_homogeneous(c));
}

impl crate::packets::SynchronizePlayerPosition {
    /// The packet that moves the client to `location` (absolute, flags 0) under `teleport_id`.
    pub fn new(location: &Location, teleport_id: i32) -> (r: crate::packets::SynchronizePlayerPosition)
        ensures
            r == (crate::packets::SynchronizePlayerPosition {
                x: location.x,
                y: location.y,
                z: location.z,
                yaw: location.yaw,
                pitch: location.pitch,
                flags: 0,
                teleport_id: VarInt(teleport_id),
            }),
    {
        crate::packets::SynchronizePlayerPosition {
            x: location.x,
            y: location.y,
            z: location.z,
            yaw: location.yaw,
            pitch: location.pitch,
            flags: 0,
            teleport_id: VarInt(teleport_id),
        }
    }
}

impl crate::packets::PlayerAbilities {
    /// Invulnerable, flying, allowed to fly and instant break (flags 0x0F), flying speed 0.05
    /// and field-of-view modifier 0.1 (as `f32` bits).
    pub fn default_abilities() -> (r: crate::packets::PlayerAbilities)
        ensures
            r == (crate::packets::PlayerAbilities { abilities: 0x0F, flying_speed: 0x3D4C_CCCD, fov_modifier: 0x3DCC_CCCD }),
    {
        crate::packets::PlayerAbilities { abilities: 0x0F, flying_speed: 0x3D4C_CCCD, fov_modifier: 0x3DCC_CCCD }
    }
}

impl Player {
    /// The player a configured connection becomes on its client information: its name and
    /// UUID, the client's locale and main hand, and the requested view distance capped by
    /// `max_view_distance` (a negative request counts as 0).
    pub fn from_client_information(conn: &crate::status::Connection, info: crate::packets::ClientInformation, max_view_distance: u8) -> (r: Player)
        ensures
            r.wf(),
            r.state_spec() == PlayerState::CONFIGURATION,
            r.max_view_distance_spec() == max_view_distance,
            r.view_distance_spec() == if info.view_distance < 0 {
                0
            } else if info.view_distance as u8 <= max_view_distance {
                info.view_distance as u8
            } else {
                max_view_distance
            },
            r.name_spec() == conn.username@,
            r.outbox_spec().len() == 0,
            r.requests().len() == 0,
    {
        let requested: u8 = if info.view_distance < 0 {
            0
        } else {
            info.view_distance as u8
        };
        let username = conn.username.clone();
        let display_name = conn.username.clone();
        Player {
            username,
            display_name,
            uuid: conn.uuid,
            brand: String::new(),
            e_id: conn.id,
            view_distance: if requested <= max_view_distance { requested } else { max_view_distance },
            max_view_distance,
            locale: info.locale,
            main_hand: MainHand::from_id(info.main_hand.0),
            game_mode: GameMode::Survival,
            location: Location { x: 0, y: 0, z: 0, yaw: 0, pitch: 0 },
            chunk_x: 0,
            chunk_z: 0,
            state: PlayerState::CONFIGURATION,
            teleport_requests: Vec::new(),
            last_keep_alive_id: 0,
            outbox: Vec::new(),
        }
    }
}

/// The 6 x 6 chunks around the origin, x from -3 to 2 outer, z from -3 to 2 inner.
pub open spec fn initial_chunk_packets(chunk: Chunk) -> Seq<(i32, Seq<u8>)> {
    Seq::new(
        36,
        |i: int|
            (
                0x27i32,
                crate::world::chunk_payload(
                    (i / 6 - 3) as i32,
                    (i % 6 - 3) as i32,
                    chunk.sections(),
                    chunk.world_surface(),
                    chunk.motion_blocking(),
                ),
            ),
    )
}

impl Player {
    /// Moves a configured player into play: creative mode, then `PlayLogin` (which it gives
    /// back), the abilities, the 6 x 6 chunks around the origin, a teleport to the origin
    /// under `teleport_id`, and the game event 13 (start waiting for chunks). `None`, with
    /// nothing changed, outside configuration.
    pub fn enter_play(&mut self, teleport_id: i32, chunk: &Chunk) -> (r: Option<crate::packets::PlayLogin>)
        requires
            old(self).wf(),
            chunk.wf(),
        ensures
            final(self).wf(),
            r is Some <==> old(self).state_spec() == PlayerState::CONFIGURATION,
            r is None ==> final(self).outbox_spec() == old(self).outbox_spec() && final(self).state_spec() == old(self).state_spec(),
            r matches Some(p) ==> {
                &&& final(self).state_spec() == PlayerState::PLAY
                &&& final(self).game_mode_spec() == GameMode::Creative
                &&& p.view_distance == VarInt(old(self).view_distance_spec() as i32)
                &&& p.simulation_distance == VarInt(old(self).view_distance_spec() as i32)
                &&& p.game_mode == 1 && p.previous_game_mode == -1 && p.is_flat && !p.is_hardcore
                &&& p.max_players == VarInt(100) && p.dimension_count == VarInt(1) && !p.has_death_location
                &&& final(self).outbox_spec() == old(self).outbox_spec() + seq![
                    (0x2Bi32, p.wire()),
                    (0x38i32, crate::packets::PlayerAbilities { abilities: 0x0F, flying_speed: 0x3D4C_CCCD, fov_modifier: 0x3DCC_CCCD }.wire()),
                ] + initial_chunk_packets(*chunk) + seq![(0x22i32, crate::packets::GameEvent { event: 13, value: 0 }.wire())]
                &&& (!has_id(old(self).requests(), teleport_id) ==> final(self).requests() == old(self).requests().push(
                    TeleportRequest { id: teleport_id, target: Location { x: 0, y: 0, z: 0, yaw: 0, pitch: 0 }, unsent: true },
                ))
                &&& (has_id(old(self).requests(), teleport_id) ==> final(self).requests() == old(self).requests())
            },
    {
        if self.state != PlayerState::CONFIGURATION {
            return None;
        }
        self.state = PlayerState::PLAY;
        self.game_mode = GameMode::Creative;
        let view = VarInt(self.view_distance as i32);
        let login = crate::packets::PlayLogin {
            e_id: 0,
            is_hardcore: false,
            dimension_count: VarInt(1),
            dimension: crate::types::Identifier::new("minecraft", "overworld"),
            max_players: VarInt(100),
            view_distance: view,
            simulation_distance: view,
            reduced_debug_info: false,
            enable_respawns: true,
            limited_crafting: false,
            dimension_type: VarInt(0),
            dimension_name: crate::types::Identifier::new("minecraft", "overworld"),
            seed: 0,
            game_mode: 1,
            previous_game_mode: -1,
            is_debug: false,
            is_flat: true,
            has_death_location: false,
            portal_cooldown: VarInt(0),
            enforces_secure_chat: false,
        };
        let mut payload: Vec<u8> = Vec::new();
        login.serialize(&mut payload);
        let ghost base = self.outbox_spec();
        self.add_packet(0x2B, payload);
        let abilities = crate::packets::PlayerAbilities::default_abilities();
        let mut payload2: Vec<u8> = Vec::new();
        abilities.serialize(&mut payload2);
        self.add_packet(0x38, payload2);
        let ghost base2 = self.outbox_spec();
        let mut i: i32 = 0;
        while i < 36
            invariant
                0 <= i <= 36,
                chunk.wf(),
                self.wf(),
                self.state_spec() == PlayerState::PLAY,
                self.game_mode_spec() == GameMode::Creative,
                self.requests() == old(self).requests(),
                self.outbox_spec() == base2 + initial_chunk_packets(*chunk).take(i as int),
            decreases 36 - i,
        {
            let payload3 = chunk.packet_payload(i / 6 - 3, i % 6 - 3);
            self.add_packet(CHUNK_DATA_ID, payload3);
            proof {
                assert(initial_chunk_packets(*chunk).take(i + 1) =~= initial_chunk_packets(*chunk).take(i as int).push(
                    initial_chunk_packets(*chunk)[i as int],
                ));
            }
            i = i + 1;
        }
        let origin = Location { x: 0, y: 0, z: 0, yaw: 0, pitch: 0 };
        self.teleport(origin, teleport_id);
        let event = crate::packets::GameEvent { event: 13, value: 0 };
        let mut payload4: Vec<u8> = Vec::new();
        event.serialize(&mut payload4);
        self.add_packet(0x22, payload4);
        proof {
            assert(initial_chunk_packets(*chunk).take(36) =~= initial_chunk_packets(*chunk));
        }
        assert(self.outbox_spec() =~= old(self).outbox_spec() + seq![
            (0x2Bi32, login.wire()),
            (0x38i32, crate::packets::PlayerAbilities { abilities: 0x0F, flying_speed: 0x3D4C_CCCD, fov_modifier: 0x3DCC_CCCD }.wire()),
        ] + initial_chunk_packets(*chunk) + seq![(0x22i32, crate::packets::GameEvent { event: 13, value: 0 }.wire())]);
        Some(login)
    }
}

/// Something with a name and a display name.
pub trait Nameable {
    spec fn name_spec(&self) -> Seq<char>;

    spec fn display_name_spec(&self) -> Seq<char>;

    fn name(&self) -> (r: &str)
        ensures
            r@ == self.name_spec(),
    ;

    fn display_name(&self) -> (r: &str)
        ensures
            r@ == self.display_name_spec(),
    ;

    fn set_display_name(&mut self, display_name: String)
        ensures
            final(self).display_name_spec() == display_name@,
            final(self).name_spec() == old(self).name_spec(),
    ;
}

impl Nameable for Player {
    closed spec fn name_spec(&self) -> Seq<char> {
        self.username@
    }

    closed spec fn display_name_spec(&self) -> Seq<char> {
        self.display_name@
    }

    fn name(&self) -> (r: &str) {
        self.username.as_str()
    }

    fn display_name(&self) -> (r: &str) {
        self.display_name.as_str()
    }

    fn set_display_name(&mut self, display_name: String) {
        self.display_name = display_name;
    }
}

/// Something that takes part in the world: it has a name.
pub trait Entity: Nameable {
}

impl Entity for Player {
}

/// The entities of a world; none are tracked beyond the players yet.
pub struct EntityManager;

/// The packet that sends teleport request `t` to the client.
pub open spec fn sync_packet(t: TeleportRequest) -> (i32, Seq<u8>) {
    (
        0x40i32,
        crate::packets::SynchronizePlayerPosition {
            x: t.target.x,
            y: t.target.y,
            z: t.target.z,
            yaw: t.target.yaw,
            pitch: t.target.pitch,
            flags: 0,
            teleport_id: VarInt(t.id),
        }.wire(),
    )
}

impl Player {
    /// Sends every unsent teleport: each becomes a `SynchronizePlayerPosition` in the outbox,
    /// in order, and is marked sent.
    pub fn queue_teleport_syncs(&mut self)
        requires
            old(self).wf(),
        ensures
            final(self).wf(),
            final(self).requests() == old(self).requests().map_values(
                |t: TeleportRequest| TeleportRequest { id: t.id, target: t.target, unsent: false },
            ),
            final(self).outbox_spec() == old(self).outbox_spec() + old(self).requests().filter(
                |t: TeleportRequest| t.unsent,
            ).map_values(|t: TeleportRequest| sync_packet(t)),
    {
        let ghost base = self.outbox_spec();
        let sent = self.take_unsent_teleports();
        let ghost reqs = self.requests();
        let mut i: usize = 0;
        assert(base + sent@.take(0).map_values(|t: TeleportRequest| sync_packet(t)) =~= base);
        while i < sent.len()
            invariant
                i <= sent@.len(),
                self.wf(),
                self.requests() == reqs,
                self.outbox_spec() == base + sent@.take(i as int).map_values(|t: TeleportRequest| sync_packet(t)),
            decreases sent@.len() - i,
        {
            let t = sent[i];
            let sync = crate::packets::SynchronizePlayerPosition::new(&t.target, t.id);
            let mut payload: Vec<u8> = Vec::new();
            sync.serialize(&mut payload);
            self.add_packet(0x40, payload);
            proof {
                assert(sent@.take(i + 1).map_values(|t: TeleportRequest| sync_packet(t)) =~= sent@.take(
                    i as int,
                ).map_values(|t: TeleportRequest| sync_packet(t)).push(sync_packet(t)));
            }
            i = i + 1;
        }
        assert(sent@.take(sent@.len() as int) =~= sent@);
    }
}

/// A player's view distance never exceeds the server's maximum, whatever the client asked.
pub proof fn lemma_view_distance_capped(p: &Player)
    requires
        p.wf(),
    ensures
        p.view_distance_spec() <= p.max_view_distance_spec(),
{
}

} // verus!
