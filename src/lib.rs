//! Wire protocol, NBT codec and per-connection game logic of a tick-driven
//! block-game server, with their contracts proved.
pub mod codec;
pub mod varint;
pub mod wire;
pub mod compress;
pub mod nbt;
pub mod framing;
pub mod types;
pub mod protocol;
pub mod world;
pub mod player;
pub mod packets;
pub mod text;
pub mod status;
pub mod settings;
pub mod json_nbt;
pub mod text_component;
