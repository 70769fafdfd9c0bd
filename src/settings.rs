//! Server settings and per-world game rules.
use vstd::prelude::*;
use crate::types::Identifier;

verus! {

/// Where the server listens.
pub struct ServerSettings {
    pub ip: String,
    pub port: u16,
}

impl ServerSettings {
    /// 127.0.0.1, port 25565.
    pub fn default_settings() -> (r: ServerSettings)
        ensures
            r.ip@ == "127.0.0.1"@,
            r.port == 25565,
    {
        ServerSettings { ip: String::from_str("127.0.0.1"), port: 25565 }
    }
}

/// The game rules of a world.
#[derive(Debug, Clone, Copy, PartialEq, Eq, Structural)]
pub struct GameRule {
    pub announce_advancements: bool,
    pub block_explosion_drop_decay: bool,
    pub command_block_output: bool,
    pub command_modification_block_limit: u32,
    pub disable_elytra_movement_check: bool,
    pub disable_raids: bool,
    pub do_daylight_cycle: bool,
    pub do_entity_drops: bool,
    pub do_fire_tick: bool,
    pub do_insomnia: bool,
    pub do_immediate_respawn: bool,
    pub do_limited_crafting: bool,
    pub do_mob_loot: bool,
    pub do_mob_spawning: bool,
    pub do_patrol_spawning: bool,
    pub do_tile_drops: bool,
    pub do_trader_spawning: bool,
    pub do_vines_spread: bool,
    pub do_weather_cycle: bool,
    pub do_warden_spawning: bool,
    pub drowning_damage: bool,
    pub ender_pearls_vanish_on_death: bool,
    pub fall_damage: bool,
    pub fire_damage: bool,
    pub forgive_dead_players: bool,
    pub freeze_damage: bool,
    pub global_sound_events: bool,
    pub keep_inventory: bool,
    pub lava_source_conversion: bool,
    pub log_admin_commands: bool,
    pub max_command_chain_length: u32,
    pub max_command_fork_count: u32,
    pub max_entity_cramming: u32,
    pub mob_explosion_drop_decay: bool,
    pub mob_griefing: bool,
    pub natural_regeneration: bool,
    pub players_nether_portal_creative_delay: u32,
    pub players_nether_portal_default_delay: u32,
    pub players_sleeping_percentage: u32,
    pub projectiles_can_break_blocks: bool,
    pub random_tick_speed: u32,
    pub reduced_debug_info: bool,
    pub send_command_feedback: bool,
    pub show_death_messages: bool,
    pub snow_accumulation_height: u32,
    pub spawn_chunk_radius: u32,
    pub spawn_radius: u32,
    pub spectators_generate_chunks: bool,
    pub tnt_explosion_drop_decay: bool,
    pub universal_anger: bool,
    pub water_source_conversion: bool,
}

impl GameRule {
    /// The rules a new world starts with.
    pub open spec fn defaults() -> GameRule {
        GameRule {
            announce_advancements: true,
            block_explosion_drop_decay: true,
            command_block_output: true,
            command_modification_block_limit: 32768,
            disable_elytra_movement_check: false,
            disable_raids: false,
            do_daylight_cycle: true,
            do_entity_drops: true,
            do_fire_tick: true,
            do_insomnia: true,
            do_immediate_respawn: false,
            do_limited_crafting: false,
            do_mob_loot: true,
            do_mob_spawning: true,
            do_patrol_spawning: true,
            do_tile_drops: true,
            do_trader_spawning: true,
            do_vines_spread: true,
            do_weather_cycle: true,
            do_warden_spawning: true,
            drowning_damage: true,
            ender_pearls_vanish_on_death: true,
            fall_damage: true,
            fire_damage: true,
            forgive_dead_players: true,
            freeze_damage: true,
            global_sound_events: true,
            keep_inventory: false,
            lava_source_conversion: false,
            log_admin_commands: true,
            max_command_chain_length: 65536,
            max_command_fork_count: 65536,
            max_entity_cramming: 24,
            mob_explosion_drop_decay: true,
            mob_griefing: true,
            natural_regeneration: true,
            players_nether_portal_creative_delay: 1,
            players_nether_portal_default_delay: 80,
            players_sleeping_percentage: 100,
            projectiles_can_break_blocks: true,
            random_tick_speed: 3,
            reduced_debug_info: false,
            send_command_feedback: true,
            show_death_messages: true,
            snow_accumulation_height: 1,
            spawn_chunk_radius: 2,
            spawn_radius: 10,
            spectators_generate_chunks: true,
            tnt_explosion_drop_decay: false,
            universal_anger: false,
            water_source_conversion: true,
        }
    }

    pub fn default_rules() -> (r: GameRule)
        ensures
            r == GameRule::defaults(),
    {
        GameRule {
            announce_advancements: true,
            block_explosion_drop_decay: true,
            command_block_output: true,
            command_modification_block_limit: 32768,
            disable_elytra_movement_check: false,
            disable_raids: false,
            do_daylight_cycle: true,
            do_entity_drops: true,
            do_fire_tick: true,
            do_insomnia: true,
            do_immediate_respawn: false,
            do_limited_crafting: false,
            do_mob_loot: true,
            do_mob_spawning: true,
            do_patrol_spawning: true,
            do_tile_drops: true,
            do_trader_spawning: true,
            do_vines_spread: true,
            do_weather_cycle: true,
            do_warden_spawning: true,
            drowning_damage: true,
            ender_pearls_vanish_on_death: true,
            fall_damage: true,
            fire_damage: true,
            forgive_dead_players: true,
            freeze_damage: true,
            global_sound_events: true,
            keep_inventory: false,
            lava_source_conversion: false,
            log_admin_commands: true,
            max_command_chain_length: 65536,
            max_command_fork_count: 65536,
            max_entity_cramming: 24,
            mob_explosion_drop_decay: true,
            mob_griefing: true,
            natural_regeneration: true,
            players_nether_portal_creative_delay: 1,
            players_nether_portal_default_delay: 80,
            players_sleeping_percentage: 100,
            projectiles_can_break_blocks: true,
            random_tick_speed: 3,
            reduced_debug_info: false,
            send_command_feedback: true,
            show_death_messages: true,
            snow_accumulation_height: 1,
            spawn_chunk_radius: 2,
            spawn_radius: 10,
            spectators_generate_chunks: true,
            tnt_explosion_drop_decay: false,
            universal_anger: false,
            water_source_conversion: true,
        }
    }
}

/// The entries after asking for world `ns:key`: as they were where it has rules, else with
/// the defaults added for it.
pub open spec fn loaded(e: Seq<(Seq<char>, Seq<char>, GameRule)>, ns: Seq<char>, key: Seq<char>) -> Seq<(Seq<char>, Seq<char>, GameRule)> {
    if exists|i: int| 0 <= i < e.len() && #[trigger] e[i].0 == ns && e[i].1 == key {
        e
    } else {
        e.push((ns, key, GameRule::defaults()))
    }
}

/// The game rules of each world, loaded with the defaults on first use.
pub struct GameRules {
    map: Vec<(Identifier, GameRule)>,
}

impl GameRules {
    /// The worlds' rules as pairs of namespace and key text and rules, in the order the
    /// worlds were first asked for.
    pub closed spec fn entries(&self) -> Seq<(Seq<char>, Seq<char>, GameRule)> {
        self.map@.map_values(|e: (Identifier, GameRule)| (e.0.namespace@, e.0.key@, e.1))
    }

    pub fn new() -> (r: GameRules)
        ensures
            r.entries().len() == 0,
    {
        GameRules { map: Vec::new() }
    }

    fn position_of(&self, world: &Identifier) -> (r: Option<usize>)
        ensures
            match r {
                Some(i) => i < self.entries().len() && self.entries()[i as int].0 == world.namespace@
                    && self.entries()[i as int].1 == world.key@,
                None => forall|j: int| 0 <= j < self.entries().len() ==> !(#[trigger] self.entries()[j].0
                    == world.namespace@ && self.entries()[j].1 == world.key@),
            },
    {
        let mut i: usize = 0;
        while i < self.map.len()
            invariant
                i <= self.map@.len(),
                forall|j: int| 0 <= j < i ==> !(#[trigger] self.entries()[j].0 == world.namespace@
                    && self.entries()[j].1 == world.key@),
            decreases self.map@.len() - i,
        {
            if self.map[i].0.namespace == world.namespace && self.map[i].0.key == world.key {
                return Some(i);
            }
            i = i + 1;
        }
        None
    }

    /// The rules of `world`, after adding the defaults for it where it had none.
    pub fn get_gamerules_or_load(&mut self, world: Identifier) -> (r: &GameRule)
        ensures
            (exists|i: int| 0 <= i < old(self).entries().len() && #[trigger] old(self).entries()[i].0 == world.namespace@
                && old(self).entries()[i].1 == world.key@) ==> final(self).entries() == old(self).entries(),
            !(exists|i: int| 0 <= i < old(self).entries().len() && #[trigger] old(self).entries()[i].0 == world.namespace@
                && old(self).entries()[i].1 == world.key@) ==> final(self).entries() == old(self).entries().push(
                (world.namespace@, world.key@, GameRule::defaults()),
            ),
            exists|i: int| 0 <= i < final(self).entries().len() && #[trigger] final(self).entries()[i].0 == world.namespace@
                && final(self).entries()[i].1 == world.key@ && final(self).entries()[i].2 == *r,
    {
        let i = self.load(world);
        &self.map[i].1
    }

    /// The rules of `world` for changing, after adding the defaults for it where it had none.
    pub fn get_gamerules_or_load_mut(&mut self, world: Identifier) -> (r: &mut GameRule)
        ensures
            exists|i: int|
                0 <= i < loaded(old(self).entries(), world.namespace@, world.key@).len()
                    && #[trigger] loaded(old(self).entries(), world.namespace@, world.key@)[i].0 == world.namespace@
                    && loaded(old(self).entries(), world.namespace@, world.key@)[i].1 == world.key@
                    && *r == loaded(old(self).entries(), world.namespace@, world.key@)[i].2
                    && final(self).entries() == loaded(old(self).entries(), world.namespace@, world.key@).update(
                    i,
                    (world.namespace@, world.key@, *final(r)),
                ),
    {
        let ghost ns = world.namespace@;
        let ghost key = world.key@;
        let i = self.load(world);
        let ghost mid = self.entries();
        let ghost mid_map = self.map@;
        let r = &mut self.map[i].1;
        proof {
            assert(mid == loaded(old(self).entries(), ns, key));
        }
        r
    }

    fn load(&mut self, world: Identifier) -> (r: usize)
        ensures
            r < final(self).entries().len(),
            final(self).entries()[r as int].0 == world.namespace@,
            final(self).entries()[r as int].1 == world.key@,
            (exists|i: int| 0 <= i < old(self).entries().len() && #[trigger] old(self).entries()[i].0 == world.namespace@
                && old(self).entries()[i].1 == world.key@) ==> final(self).entries() == old(self).entries(),
            !(exists|i: int| 0 <= i < old(self).entries().len() && #[trigger] old(self).entries()[i].0 == world.namespace@
                && old(self).entries()[i].1 == world.key@) ==> final(self).entries() == old(self).entries().push(
                (world.namespace@, world.key@, GameRule::defaults()),
            ),
            final(self).entries().len() <= old(self).entries().len() + 1,
    {
        match self.position_of(&world) {
            Some(i) => i,
            None => {
                let ghost ns = world.namespace@;
                let ghost key = world.key@;
                self.map.push((world, GameRule::default_rules()));
                assert(self.entries() =~= old(self).entries().push((ns, key, GameRule::defaults())));
                self.map.len() - 1
            },
        }
    }
}

} // verus!
