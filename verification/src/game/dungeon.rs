use std::sync::Arc;

use vstd::prelude::*;

use super::entity::{
    boost_amount, effect_of_def, StatusEffects, Equipment, EquipCategory, EquipData, FloorEquipment, FloorItem, Item, ItemCategory,
    ItemEffect, Monster, Player,
};
use super::master_data::{LevelEntry, MasterData, MonsterStatsDef, PlayerInitialStats};
use super::turn::GameEvent;
use super::types::{all_directions, dir_offset, Direction, Position};
use super::visibility::{in_square, is_neighbour, Visibility};
use crate::map::cell::GameMap;
use crate::rng::random_below;
use crate::text::{decimal, name_with, owned, push_decimal, push_text, text_with_number};

verus! {

/// The bound on every stat, amount and counter that the game adds up (players, monsters,
/// items and master data). The `i32` arithmetic it protects: attack plus weapon bonus,
/// enhancement and boost, and defense plus shield; the damage of a blow, thrown or not,
/// against HP; HP plus a heal or minus damage and starvation; fullness plus food and minus
/// hunger; experience plus a kill's reward; the level thresholds. Each such sum has a few
/// terms of at most `STAT_LIMIT` (10^8), far from `i32::MAX` (about 2.1 * 10^9), so no
/// turn overflows; `GameState::limits` and `data_ok` carry the bound.
pub const STAT_LIMIT: i32 = 100_000_000;

/// The bound on map sizes and on the coordinates of the player and of items on the floor.
pub const COORD_LIMIT: i32 = 1_000_000;

pub open spec fn stat_ok(v: int) -> bool {
    -STAT_LIMIT <= v <= STAT_LIMIT
}

pub open spec fn coord_ok(p: Position) -> bool {
    -COORD_LIMIT <= p.x <= COORD_LIMIT && -COORD_LIMIT <= p.y <= COORD_LIMIT
}

/// Monsters may stand one step off the map (a chasing monster steps next to the player
/// without looking at the cell), so their bound is wider.
pub open spec fn monster_coord_ok(p: Position) -> bool {
    -2 * COORD_LIMIT <= p.x <= 2 * COORD_LIMIT && -2 * COORD_LIMIT <= p.y <= 2 * COORD_LIMIT
}

pub open spec fn equip_ok(e: Option<Equipment>) -> bool {
    match e {
        Some(w) => stat_ok(w.base_value as int) && stat_ok(w.enhancement as int),
        None => true,
    }
}

pub open spec fn effect_ok(e: ItemEffect) -> bool {
    match e {
        ItemEffect::Heal(v) => stat_ok(v as int),
        ItemEffect::Food(v) => stat_ok(v as int),
        ItemEffect::BoostAttack(v) => stat_ok(v as int),
        ItemEffect::TempBoostAttack { amount, turns } => stat_ok(amount as int),
        ItemEffect::Knockback { distance } => stat_ok(distance as int),
        _ => true,
    }
}

pub open spec fn item_ok(it: Item) -> bool {
    &&& effect_ok(it.effect)
    &&& (it.category matches ItemCategory::Staff(c) ==> stat_ok(c as int))
    &&& (it.equip_data matches Some(d) ==> stat_ok(d.base_value as int) && stat_ok(
        d.enhancement as int,
    ))
}

pub open spec fn player_ok(p: Player) -> bool {
    &&& stat_ok(p.level as int)
    &&& stat_ok(p.exp as int)
    &&& stat_ok(p.hp as int)
    &&& stat_ok(p.max_hp as int)
    &&& stat_ok(p.attack as int)
    &&& stat_ok(p.defense as int)
    &&& stat_ok(p.fullness as int)
    &&& stat_ok(p.max_fullness as int)
    &&& equip_ok(p.weapon)
    &&& equip_ok(p.shield)
    &&& stat_ok(boost_amount(p.status.attack_boost))
    &&& p.kill_count < u32::MAX
    &&& forall|i: int| 0 <= i < p.inventory@.len() ==> item_ok(#[trigger] p.inventory@[i])
}

pub open spec fn monster_ok(m: Monster) -> bool {
    &&& stat_ok(m.hp as int)
    &&& stat_ok(m.max_hp as int)
    &&& stat_ok(m.attack as int)
    &&& stat_ok(m.defense as int)
    &&& stat_ok(m.exp as int)
}

pub open spec fn level_entry_ok(e: LevelEntry) -> bool {
    stat_ok(e.level as int) && stat_ok(e.req_exp as int) && stat_ok(e.max_hp as int) && stat_ok(
        e.attack as int,
    ) && stat_ok(e.defense as int)
}

pub open spec fn data_ok(d: MasterData) -> bool {
    &&& 0 <= d.balance.min_damage <= STAT_LIMIT
    &&& stat_ok(d.balance.thrown_non_weapon_damage as int)
    &&& stat_ok(d.balance.fullness_decrease_per_turn as int)
    &&& stat_ok(d.balance.starvation_damage as int)
    &&& stat_ok(d.balance.detection_range as int)
    &&& stat_ok(d.balance.staff_range as int)
    &&& stat_ok(d.balance.throw_range as int)
    &&& forall|i: int|
        0 <= i < d.player.level_table@.len() ==> level_entry_ok(#[trigger] d.player.level_table@[i])
    &&& initial_stats_ok(d.player.initial_stats)
    &&& d.map.max_floor <= STAT_LIMIT
    &&& forall|i: int| 0 <= i < d.items@.len() ==> effect_ok(effect_of_def((#[trigger] d.items@[i]).1.effect))
    &&& forall|i: int| 0 <= i < d.equipment@.len() ==> stat_ok((#[trigger] d.equipment@[i]).1.base_value as int)
    &&& forall|i: int| 0 <= i < d.monsters@.len() ==> monster_def_ok((#[trigger] d.monsters@[i]).1)
    &&& forall|i: int|
        0 <= i < d.floors.monster_counts@.len() ==> (#[trigger] d.floors.monster_counts@[i]).count < STAT_LIMIT
    &&& stat_ok(d.floors.staff_spawns.min_charges as int)
    &&& stat_ok(d.floors.staff_spawns.max_charges as int)
    &&& forall|i: int|
        0 <= i < d.floors.equipment_spawns@.len() ==> stat_ok(
            (#[trigger] d.floors.equipment_spawns@[i]).max_enhancement as int,
        )
    &&& distinct_keys(d.items@)
    &&& distinct_keys(d.equipment@)
    &&& distinct_keys(d.monsters@)
}

/// No two entries of a table share an id, as in a map keyed by id.
pub open spec fn distinct_keys<T>(t: Seq<(String, T)>) -> bool {
    forall|i: int, j: int| 0 <= i < j < t.len() ==> (#[trigger] t[i]).0@ != (#[trigger] t[j]).0@
}

pub open spec fn initial_stats_ok(s: PlayerInitialStats) -> bool {
    stat_ok(s.level as int) && stat_ok(s.hp as int) && stat_ok(s.attack as int) && stat_ok(s.defense as int)
        && stat_ok(s.fullness as int) && stat_ok(s.max_fullness as int)
}

pub open spec fn monster_def_ok(d: MonsterStatsDef) -> bool {
    stat_ok(d.hp as int) && stat_ok(d.attack as int) && stat_ok(d.defense as int) && stat_ok(d.exp as int)
}

/// Every monster's attack lies within `-b..=b`.
pub open spec fn attacks_within(ms: Seq<Monster>, b: int) -> bool {
    forall|k: int| 0 <= k < ms.len() ==> -b <= #[trigger] ms[k].attack <= b
}

proof fn lemma_attacks_update(ms: Seq<Monster>, i: int, m: Monster, b: int)
    requires
        attacks_within(ms, b),
        0 <= i < ms.len(),
        -b <= m.attack <= b,
    ensures
        attacks_within(ms.update(i, m), b),
{
    assert forall|k: int| 0 <= k < ms.len() implies -b <= #[trigger] ms.update(i, m)[k].attack <= b by {
        if k != i {
            assert(ms.update(i, m)[k] == ms[k]);
        }
    }
}

proof fn lemma_attacks_remove(ms: Seq<Monster>, i: int, b: int)
    requires
        attacks_within(ms, b),
        0 <= i < ms.len(),
    ensures
        attacks_within(ms.remove(i), b),
{
    assert forall|k: int| 0 <= k < ms.len() - 1 implies -b <= #[trigger] ms.remove(i)[k].attack <= b by {
        if k < i {
            assert(ms.remove(i)[k] == ms[k]);
        } else {
            assert(ms.remove(i)[k] == ms[k + 1]);
        }
    }
}

pub proof fn lemma_limits_attacks(s: GameState)
    requires
        s.limits(),
    ensures
        attacks_within(s.monsters@, 2 * STAT_LIMIT),
{
    assert forall|k: int| 0 <= k < s.monsters@.len() implies -2 * STAT_LIMIT <= #[trigger] s.monsters@[k].attack
        <= 2 * STAT_LIMIT by {
        assert(monster_ok(s.monsters@[k]));
    }
}

pub proof fn lemma_level_up_entry_range(table: Seq<LevelEntry>, n: int, exp: i32, level: i32)
    ensures
        spec_level_up_entry(table, n, exp, level) matches Some(i) ==> 0 <= i < n,
    decreases n,
{
    if n > 0 {
        lemma_level_up_entry_range(table, n - 1, exp, level);
    }
}

/// The whole state of a game in progress.
pub struct GameState {
    pub player: Player,
    pub monsters: Vec<Monster>,
    pub floor_items: Vec<FloorItem>,
    pub floor_equips: Vec<FloorEquipment>,
    pub map: GameMap,
    pub visibility: Visibility,
    pub floor: u32,
    pub turn: u32,
    pub data: Arc<MasterData>,
}

/// The index of the first monster standing at `p`.
pub open spec fn spec_monster_at(ms: Seq<Monster>, p: Position) -> Option<int> {
    if exists|i: int| 0 <= i < ms.len() && (#[trigger] ms[i]).pos == p {
        Some(choose|i: int| 0 <= i < ms.len() && (#[trigger] ms[i]).pos == p && forall|j: int|
            0 <= j < i ==> (#[trigger] ms[j]).pos != p)
    } else {
        None
    }
}

/// The entry of the level table that a player of `level` with `exp` experience reaches:
/// the last entry among the first `n` whose required experience is met and whose level is
/// above the current one.
pub open spec fn spec_level_up_entry(table: Seq<LevelEntry>, n: int, exp: i32, level: i32) -> Option<int>
    decreases n,
{
    if n <= 0 {
        None
    } else if exp >= table[n - 1].req_exp && level < table[n - 1].level {
        Some(n - 1)
    } else {
        spec_level_up_entry(table, n - 1, exp, level)
    }
}

/// The count of monsters on `floor`: the first count entry whose range holds it, else the
/// last entry's count, else 8.
pub open spec fn spec_monster_count(entries: Seq<super::master_data::MonsterCountEntry>, floor: u32) -> u32 {
    if exists|i: int| 0 <= i < entries.len() && (#[trigger] entries[i]).floors.spec_contains(floor) {
        entries[choose|i: int|
            0 <= i < entries.len() && (#[trigger] entries[i]).floors.spec_contains(floor) && forall|j: int|
                0 <= j < i ==> !(#[trigger] entries[j]).floors.spec_contains(floor)].count
    } else if entries.len() > 0 {
        entries.last().count
    } else {
        8
    }
}

impl GameState {
    /// The shape that every operation keeps: the map and the positions stay within the
    /// coordinate bounds.
    pub open spec fn wf(&self) -> bool {
        &&& self.map.wf()
        &&& self.map.width <= COORD_LIMIT
        &&& self.map.height <= COORD_LIMIT
        &&& coord_ok(self.player.pos)
        &&& forall|i: int| 0 <= i < self.monsters@.len() ==> monster_coord_ok(#[trigger] self.monsters@[i].pos)
        &&& forall|i: int| 0 <= i < self.floor_items@.len() ==> coord_ok(#[trigger] self.floor_items@[i].pos)
        &&& forall|i: int| 0 <= i < self.floor_equips@.len() ==> coord_ok(#[trigger] self.floor_equips@[i].pos)
        &&& self.visibility.wf()
    }

    /// Every number that a turn adds up lies within `STAT_LIMIT`, and the turn and floor
    /// counters can still grow.
    pub open spec fn limits(&self) -> bool {
        &&& player_ok(self.player)
        &&& forall|i: int| 0 <= i < self.monsters@.len() ==> monster_ok(#[trigger] self.monsters@[i])
        &&& forall|i: int| 0 <= i < self.floor_items@.len() ==> item_ok(#[trigger] self.floor_items@[i].item)
        &&& forall|i: int| 0 <= i < self.floor_equips@.len() ==> equip_ok(Some(#[trigger] self.floor_equips@[i].equip))
        &&& data_ok(*self.data)
        &&& self.monsters@.len() < STAT_LIMIT
        &&& self.turn < u32::MAX
        &&& self.floor < u32::MAX
    }

    /// The looser bounds that hold once the player has acted in a turn: an action adds at
    /// most one more `STAT_LIMIT` to the numbers that the rest of the turn adds up.
    pub open spec fn action_bounds(&self) -> bool {
        &&& -2 * STAT_LIMIT <= self.player.hp <= 2 * STAT_LIMIT
        &&& -2 * STAT_LIMIT <= self.player.fullness <= 2 * STAT_LIMIT
        &&& stat_ok(self.player.defense as int)
        &&& equip_ok(self.player.shield)
        &&& data_ok(*self.data)
        &&& attacks_within(self.monsters@, 2 * STAT_LIMIT)
        &&& self.turn < u32::MAX
    }

    pub fn monster_at(&self, pos: &Position) -> (r: Option<usize>)
        ensures
            r.is_some() == spec_monster_at(self.monsters@, *pos).is_some(),
            r.is_some() ==> spec_monster_at(self.monsters@, *pos) == Some(r.unwrap() as int),
            r.is_some() ==> r.unwrap() < self.monsters@.len() && self.monsters@[r.unwrap() as int].pos == *pos,
            r.is_none() ==> forall|j: int| 0 <= j < self.monsters@.len() ==> (#[trigger] self.monsters@[j]).pos != *pos,
    {
        let mut i: usize = 0;
        while i < self.monsters.len()
            invariant
                i <= self.monsters@.len(),
                forall|j: int| 0 <= j < i ==> (#[trigger] self.monsters@[j]).pos != *pos,
            decreases self.monsters@.len() - i,
        {
            if self.monsters[i].pos == *pos {
                proof {
                    let ms = self.monsters@;
                    assert(0 <= i < ms.len() && ms[i as int].pos == *pos);
                    let w = choose|k: int| 0 <= k < ms.len() && (#[trigger] ms[k]).pos == *pos && forall|j: int|
                        0 <= j < k ==> (#[trigger] ms[j]).pos != *pos;
                    assert(0 <= i < ms.len() && ms[i as int].pos == *pos && forall|j: int|
                        0 <= j < i ==> (#[trigger] ms[j]).pos != *pos);
                    if w < i {
                    } else if w > i {
                        assert(ms[i as int].pos != *pos);
                    }
                }
                return Some(i);
            }
            i = i + 1;
        }
        None
    }

    pub fn monster_count_for_floor(&self, floor: u32) -> (c: u32)
        ensures
            c == spec_monster_count(self.data.floors.monster_counts@, floor),
            data_ok(*self.data) ==> c < STAT_LIMIT,
    {
        monster_count_in(&self.data, floor)
    }

    pub fn is_game_over(&self) -> (b: bool)
        ensures
            b == (self.player.hp <= 0),
    {
        self.player.hp <= 0
    }

    pub fn is_game_clear(&self) -> (b: bool)
        ensures
            b == (self.floor > self.data.map.max_floor),
    {
        self.floor > self.data.map.max_floor
    }

    pub fn max_floor(&self) -> (m: u32)
        ensures
            m == self.data.map.max_floor,
    {
        self.data.map.max_floor
    }
}


/// The number of monsters that the master data puts on `floor`.
pub fn monster_count_in(d: &MasterData, floor: u32) -> (c: u32)
    ensures
        c == spec_monster_count(d.floors.monster_counts@, floor),
        data_ok(*d) ==> c < STAT_LIMIT,
{
    let entries = &d.floors.monster_counts;
    assert(entries@ == d.floors.monster_counts@);
    let mut i: usize = 0;
    while i < entries.len()
        invariant
            entries@ == d.floors.monster_counts@,
            i <= entries@.len(),
            forall|j: int| 0 <= j < i ==> !(#[trigger] entries@[j]).floors.spec_contains(floor),
        decreases entries@.len() - i,
    {
        if entries[i].floors.contains(floor) {
            proof {
                let es = entries@;
                let w = choose|k: int|
                    0 <= k < es.len() && (#[trigger] es[k]).floors.spec_contains(floor) && forall|j: int|
                        0 <= j < k ==> !(#[trigger] es[j]).floors.spec_contains(floor);
                assert(0 <= i < es.len() && es[i as int].floors.spec_contains(floor) && forall|j: int|
                    0 <= j < i ==> !(#[trigger] es[j]).floors.spec_contains(floor));
                if w < i {
                } else if w > i {
                    assert(!es[i as int].floors.spec_contains(floor));
                }
                assert(w == i);
                assert(spec_monster_count(es, floor) == es[i as int].count);
            }
            return entries[i].count;
        }
        i = i + 1;
    }
    if entries.len() > 0 {
        entries[entries.len() - 1].count
    } else {
        8
    }
}


// --- Event and state helpers used by the contracts ---

/// The event is a message with the given text.
pub open spec fn is_message(e: GameEvent, text: Seq<char>) -> bool {
    e matches GameEvent::Message(m) && m@ == text
}

/// The damage of a blow: attack minus defense, but at least the minimum damage.
pub open spec fn spec_damage(min_damage: int, attack: int, defense: int) -> int {
    if attack - defense > min_damage { attack - defense } else { min_damage }
}

/// The player after reaching a level-table entry: its level and stats, with full HP.
pub open spec fn leveled(p: Player, e: LevelEntry) -> Player {
    Player { level: e.level, max_hp: e.max_hp, hp: e.max_hp, attack: e.attack, defense: e.defense, ..p }
}

/// The level-up check: the player reaches the last table entry whose required experience is
/// met and whose level is above the current one, and a `LevelUp` event follows; else nothing
/// happens.
pub open spec fn level_up_post(
    table: Seq<LevelEntry>,
    p0: Player,
    p1: Player,
    ev0: Seq<GameEvent>,
    ev1: Seq<GameEvent>,
) -> bool {
    match spec_level_up_entry(table, table.len() as int, p0.exp, p0.level) {
        Some(i) => p1 == leveled(p0, table[i]) && ev1 == ev0.push(
            GameEvent::LevelUp { new_level: table[i].level },
        ),
        None => p1 == p0 && ev1 == ev0,
    }
}

/// The player after a kill worth `exp`, before the level-up check.
pub open spec fn credited(p: Player, exp: i32) -> Player {
    Player { exp: (p.exp + exp) as i32, kill_count: (p.kill_count + 1) as u32, ..p }
}

/// A monster after taking `damage`: its HP drops by the damage.
pub open spec fn wounded(m: Monster, damage: int) -> Monster {
    Monster { hp: (m.hp - damage) as i32, ..m }
}

/// A monster freed from paralysis.
pub open spec fn unparalyzed(m: Monster) -> Monster {
    Monster { status: StatusEffects { paralyzed: false, ..m.status }, ..m }
}

/// A kill: the monster leaves the floor, a `MonsterDefeated` event follows, the player
/// (`p_base` before the kill) gains its experience and a kill, then the level-up check runs.
pub open spec fn defeat_post_with(
    pre: GameState,
    p_base: Player,
    post: GameState,
    mi: int,
    name: String,
    ev0: Seq<GameEvent>,
    ev1: Seq<GameEvent>,
) -> bool {
    let m = pre.monsters@[mi];
    let ev_k = ev0.push(GameEvent::MonsterDefeated { name: name, exp: m.exp });
    &&& post.monsters@ == pre.monsters@.remove(mi)
    &&& level_up_post(pre.data.player.level_table@, credited(p_base, m.exp), post.player, ev_k, ev1)
    &&& post.floor_items == pre.floor_items
    &&& post.floor_equips == pre.floor_equips
    &&& post.map == pre.map
    &&& post.visibility == pre.visibility
    &&& post.floor == pre.floor
    &&& post.turn == pre.turn
    &&& post.data == pre.data
}

/// A kill by the player's own blow.
pub open spec fn defeat_post(
    pre: GameState,
    post: GameState,
    mi: int,
    name: String,
    ev0: Seq<GameEvent>,
    ev1: Seq<GameEvent>,
) -> bool {
    defeat_post_with(pre, pre.player, post, mi, name, ev0, ev1)
}

/// The player's blow on monster `mi`: damage, release from paralysis (with a message),
/// a `PlayerAttacked` event, and a kill when its HP drops to 0 or below.
pub open spec fn attack_post(
    pre: GameState,
    post: GameState,
    mi: int,
    ev0: Seq<GameEvent>,
    ev1: Seq<GameEvent>,
) -> bool {
    let m = pre.monsters@[mi];
    let damage = spec_damage(
        pre.data.balance.min_damage as int,
        pre.player.spec_effective_attack(),
        m.defense as int,
    );
    let hit = unparalyzed(wounded(m, damage));
    let n_msg: int = if m.status.paralyzed { 1 } else { 0 };
    let ev_a = ev1.subrange(0, ev0.len() + n_msg + 1);
    &&& ev1.len() >= ev0.len() + n_msg + 1
    &&& ev1.subrange(0, ev0.len() as int) == ev0
    &&& (m.status.paralyzed ==> is_message(ev1[ev0.len() as int], "金縛りが解けた"@))
    &&& ev1[ev0.len() + n_msg] == (GameEvent::PlayerAttacked {
        target_name: m.name,
        damage: damage as i32,
    })
    &&& if hit.hp > 0 {
        &&& ev1 == ev_a
        &&& post.monsters@ == pre.monsters@.update(mi, hit)
        &&& post.player == pre.player
        &&& same_floor(pre, post)
    } else {
        defeat_post(pre, post, mi, m.name, ev_a, ev1)
    }
}

/// Everything but the player and the monsters is unchanged.
pub open spec fn same_floor(pre: GameState, post: GameState) -> bool {
    &&& post.floor_items == pre.floor_items
    &&& post.floor_equips == pre.floor_equips
    &&& post.map == pre.map
    &&& post.visibility == pre.visibility
    &&& post.floor == pre.floor
    &&& post.turn == pre.turn
    &&& post.data == pre.data
}

impl GameState {
    pub fn check_level_up(&mut self, events: &mut Vec<GameEvent>)
        requires
            data_ok(*old(self).data),
        ensures
            level_up_post(
                old(self).data.player.level_table@,
                old(self).player,
                final(self).player,
                old(events)@,
                final(events)@,
            ),
            final(self).monsters == old(self).monsters,
            same_floor(*old(self), *final(self)),
    {
        let table = &self.data.player.level_table;
        let ghost t = table@;
        let mut i: usize = table.len();
        while i > 0
            invariant
                table@ == t,
                t == self.data.player.level_table@,
                i <= t.len(),
                self.player == old(self).player,
                self.monsters == old(self).monsters,
                same_floor(*old(self), *self),
                events@ == old(events)@,
                spec_level_up_entry(t, t.len() as int, self.player.exp, self.player.level)
                    == spec_level_up_entry(t, i as int, self.player.exp, self.player.level),
            decreases i,
        {
            let entry = table[i - 1];
            if self.player.exp >= entry.req_exp && self.player.level < entry.level {
                self.player.level = entry.level;
                self.player.max_hp = entry.max_hp;
                self.player.hp = entry.max_hp;
                self.player.attack = entry.attack;
                self.player.defense = entry.defense;
                events.push(GameEvent::LevelUp { new_level: entry.level });
                return;
            }
            i = i - 1;
        }
    }
}

/// Hunger: a fed player loses fullness; a starving one loses HP and a `Starving` event
/// follows.
pub open spec fn fullness_post(
    bal: super::master_data::BalanceData,
    p0: Player,
    p1: Player,
    ev0: Seq<GameEvent>,
    ev1: Seq<GameEvent>,
) -> bool {
    if p0.fullness > 0 {
        p1 == (Player { fullness: (p0.fullness - bal.fullness_decrease_per_turn) as i32, ..p0 })
            && ev1 == ev0
    } else {
        p1 == (Player { hp: (p0.hp - bal.starvation_damage) as i32, ..p0 }) && ev1 == ev0.push(
            GameEvent::Starving,
        )
    }
}

impl GameState {
    #[verifier::spinoff_prover]
    pub fn attack_monster(&mut self, monster_idx: usize, events: &mut Vec<GameEvent>)
        requires
            old(self).wf(),
            old(self).limits(),
            monster_idx < old(self).monsters@.len(),
        ensures
            attack_post(*old(self), *final(self), monster_idx as int, old(events)@, final(events)@),
            final(self).wf(),
            final(self).action_bounds(),
    {
        proof {
            assert(monster_ok(self.monsters@[monster_idx as int]));
            lemma_limits_attacks(*self);
        }
        let attack = self.player.effective_attack();
        let diff = attack - self.monsters[monster_idx].defense;
        let min_damage = self.data.balance.min_damage;
        let damage = if min_damage > diff { min_damage } else { diff };
        let ghost m = self.monsters@[monster_idx as int];
        let ghost ev0 = events@;
        self.monsters[monster_idx].hp = self.monsters[monster_idx].hp - damage;
        if self.monsters[monster_idx].status.paralyzed {
            self.monsters[monster_idx].status.paralyzed = false;
            events.push(GameEvent::Message(owned("金縛りが解けた")));
        }
        let ghost n_msg: int = if m.status.paralyzed { 1 } else { 0 };
        let name = self.monsters[monster_idx].name.clone();
        events.push(GameEvent::PlayerAttacked { target_name: name.clone(), damage });
        proof {
            let hit = unparalyzed(wounded(m, damage as int));
            assert(self.monsters@ == old(self).monsters@.update(monster_idx as int, hit));
            lemma_attacks_update(old(self).monsters@, monster_idx as int, hit, 2 * STAT_LIMIT);
            assert(events@.subrange(0, ev0.len() as int) =~= ev0);
        }
        if self.monsters[monster_idx].hp <= 0 {
            let exp = self.monsters[monster_idx].exp;
            let ghost ev_a = events@;
            let ghost ms_hit = self.monsters@;
            self.monsters.remove(monster_idx);
            events.push(GameEvent::MonsterDefeated { name: name, exp });
            self.player.exp = self.player.exp + exp;
            self.player.kill_count = self.player.kill_count + 1;
            proof {
                assert(self.monsters@ =~= old(self).monsters@.remove(monster_idx as int));
                lemma_attacks_remove(ms_hit, monster_idx as int, 2 * STAT_LIMIT);
                assert(self.player == credited(old(self).player, m.exp));
            }
            let ghost ev_k = events@;
            self.check_level_up(events);
            proof {
                assert(events@.subrange(0, ev_a.len() as int) =~= ev_a) by {
                    assert(ev_k.subrange(0, ev_a.len() as int) =~= ev_a);
                    assert(events@.len() >= ev_k.len());
                    assert forall|k: int| 0 <= k < ev_a.len() implies events@[k] == ev_a[k] by {
                        assert(ev_k[k] == ev_a[k]);
                    }
                }
                assert(events@.subrange(0, ev0.len() as int) =~= ev0) by {
                    assert forall|k: int| 0 <= k < ev0.len() implies events@[k] == ev0[k] by {
                        assert(ev_a[k] == ev0[k]);
                    }
                }
                let t = self.data.player.level_table@;
                let pc = credited(old(self).player, m.exp);
                lemma_level_up_entry_range(t, t.len() as int, pc.exp, pc.level);
                if let Some(i) = spec_level_up_entry(t, t.len() as int, pc.exp, pc.level) {
                    assert(level_entry_ok(t[i]));
                }
            }
        } else {
            proof {
                assert(events@ =~= events@.subrange(0, ev0.len() + n_msg + 1));
            }
        }
    }

    pub fn process_fullness(&mut self, events: &mut Vec<GameEvent>)
        requires
            old(self).action_bounds(),
        ensures
            fullness_post(old(self).data.balance, old(self).player, final(self).player, old(events)@, final(events)@),
            final(self).monsters == old(self).monsters,
            same_floor(*old(self), *final(self)),
    {
        if self.player.fullness > 0 {
            self.player.fullness = self.player.fullness - self.data.balance.fullness_decrease_per_turn;
        } else {
            self.player.hp = self.player.hp - self.data.balance.starvation_damage;
            events.push(GameEvent::Starving);
        }
    }
}

/// The inventory category of a piece of equipment.
pub open spec fn equip_item_category(c: EquipCategory) -> ItemCategory {
    match c {
        EquipCategory::Weapon => ItemCategory::Weapon,
        EquipCategory::Shield => ItemCategory::Shield,
    }
}

/// `it` is the inventory item that stands for equipment `e`: same id and symbol, its shown
/// name, the matching category, a no-op effect and the equipment's values.
pub open spec fn is_equipment_item(it: Item, e: Equipment) -> bool {
    &&& it.id == e.id
    &&& it.name@ == super::entity::spec_display_name(e.name@, e.enhancement)
    &&& it.symbol == e.symbol
    &&& it.category == equip_item_category(e.category)
    &&& it.effect == ItemEffect::Heal(0)
    &&& it.equip_data == Some(EquipData { base_value: e.base_value, enhancement: e.enhancement })
}

/// `e` is the equipment that inventory item `it` becomes when worn as `category`.
pub open spec fn is_item_equipment(e: Equipment, it: Item, category: EquipCategory) -> bool {
    &&& e.id == it.id
    &&& e.name == it.name
    &&& e.symbol == it.symbol
    &&& e.category == category
    &&& e.base_value == match it.equip_data {
        Some(d) => d.base_value,
        None => 0,
    }
    &&& e.enhancement == match it.equip_data {
        Some(d) => d.enhancement,
        None => 0,
    }
}

pub fn equipment_to_item(equip: &Equipment) -> (it: Item)
    ensures
        is_equipment_item(it, *equip),
{
    Item {
        id: equip.id.clone(),
        name: equip.display_name(),
        symbol: equip.symbol,
        category: match equip.category {
            EquipCategory::Weapon => ItemCategory::Weapon,
            EquipCategory::Shield => ItemCategory::Shield,
        },
        effect: ItemEffect::Heal(0),
        equip_data: Some(EquipData { base_value: equip.base_value, enhancement: equip.enhancement }),
    }
}

pub fn item_to_equipment(item: &Item, category: EquipCategory) -> (e: Equipment)
    ensures
        is_item_equipment(e, *item, category),
{
    let (base_value, enhancement) = match &item.equip_data {
        Some(data) => (data.base_value, data.enhancement),
        None => (0, 0),
    };
    Equipment {
        id: item.id.clone(),
        name: item.name.clone(),
        symbol: item.symbol,
        category,
        base_value,
        enhancement,
    }
}

/// The index of the first floor item lying at `p`.
pub open spec fn spec_item_at(items: Seq<FloorItem>, p: Position) -> Option<int> {
    if exists|i: int| 0 <= i < items.len() && (#[trigger] items[i]).pos == p {
        Some(choose|i: int| 0 <= i < items.len() && (#[trigger] items[i]).pos == p && forall|j: int|
            0 <= j < i ==> (#[trigger] items[j]).pos != p)
    } else {
        None
    }
}

/// The index of the first piece of floor equipment lying at `p`.
pub open spec fn spec_equip_at(items: Seq<FloorEquipment>, p: Position) -> Option<int> {
    if exists|i: int| 0 <= i < items.len() && (#[trigger] items[i]).pos == p {
        Some(choose|i: int| 0 <= i < items.len() && (#[trigger] items[i]).pos == p && forall|j: int|
            0 <= j < i ==> (#[trigger] items[j]).pos != p)
    } else {
        None
    }
}

/// Everything but the player's inventory and the floor items and equipment is unchanged.
pub open spec fn same_but_pickups(pre: GameState, post: GameState) -> bool {
    &&& post.player == (Player { inventory: post.player.inventory, ..pre.player })
    &&& post.monsters == pre.monsters
    &&& post.map == pre.map
    &&& post.visibility == pre.visibility
    &&& post.floor == pre.floor
    &&& post.turn == pre.turn
    &&& post.data == pre.data
}

/// Picking up the first item at the player's cell: it goes to the inventory with an
/// `ItemPickedUp` event, unless the inventory is full, in which case it stays and an
/// `InventoryFull` event follows.
pub open spec fn item_pickup_post(pre: GameState, post: GameState, ev0: Seq<GameEvent>, ev1: Seq<GameEvent>) -> bool {
    let inv0 = pre.player.inventory@;
    let i1 = spec_item_at(pre.floor_items@, pre.player.pos);
    &&& same_but_pickups(pre, post)
    &&& post.floor_equips == pre.floor_equips
    &&& match i1 {
        None => post.player.inventory@ == inv0 && post.floor_items@ == pre.floor_items@ && ev1 == ev0,
        Some(i) => if inv0.len() >= pre.data.player.max_inventory {
            post.player.inventory@ == inv0 && post.floor_items@ == pre.floor_items@ && ev1 == ev0.push(GameEvent::InventoryFull)
        } else {
            let it = pre.floor_items@[i].item;
            &&& post.player.inventory@ == inv0.push(it)
            &&& post.floor_items@ == pre.floor_items@.remove(i)
            &&& ev1 == ev0.push(GameEvent::ItemPickedUp { name: it.name })
        },
    }
}

/// Picking up the first piece of equipment at the player's cell: it goes to the inventory as
/// an item with an `EquipmentPickedUp` event naming it, unless the inventory is full, in
/// which case it stays and an `InventoryFull` event follows.
pub open spec fn equip_pickup_post(pre: GameState, post: GameState, ev0: Seq<GameEvent>, ev1: Seq<GameEvent>) -> bool {
    let inv0 = pre.player.inventory@;
    let e1 = spec_equip_at(pre.floor_equips@, pre.player.pos);
    &&& same_but_pickups(pre, post)
    &&& post.floor_items == pre.floor_items
    &&& match e1 {
        None => post.player.inventory@ == inv0 && post.floor_equips@ == pre.floor_equips@ && ev1 == ev0,
        Some(i) => if inv0.len() >= pre.data.player.max_inventory {
            post.player.inventory@ == inv0 && post.floor_equips@ == pre.floor_equips@ && ev1 == ev0.push(GameEvent::InventoryFull)
        } else {
            let e = pre.floor_equips@[i].equip;
            &&& post.player.inventory@.len() == inv0.len() + 1
            &&& post.player.inventory@.drop_last() == inv0
            &&& is_equipment_item(post.player.inventory@.last(), e)
            &&& post.floor_equips@ == pre.floor_equips@.remove(i)
            &&& ev1.len() == ev0.len() + 1 && ev1.drop_last() == ev0
            &&& ev1.last() matches GameEvent::EquipmentPickedUp { name }
            &&& (ev1.last()->EquipmentPickedUp_name)@ == super::entity::spec_display_name(e.name@, e.enhancement)
        },
    }
}

/// Picking up at the player's cell: first the item there, then the equipment there.
pub open spec fn pickup_post(pre: GameState, post: GameState, ev0: Seq<GameEvent>, ev1: Seq<GameEvent>) -> bool {
    exists|mid: GameState, evm: Seq<GameEvent>|
        item_pickup_post(pre, mid, ev0, evm) && #[trigger] equip_pickup_post(mid, post, evm, ev1)
}

impl GameState {
    fn floor_item_at(&self, pos: &Position) -> (r: Option<usize>)
        ensures
            r.is_some() == spec_item_at(self.floor_items@, *pos).is_some(),
            r.is_some() ==> spec_item_at(self.floor_items@, *pos) == Some(r.unwrap() as int),
            r.is_some() ==> r.unwrap() < self.floor_items@.len() && self.floor_items@[r.unwrap() as int].pos
                == *pos,
    {
        let mut i: usize = 0;
        while i < self.floor_items.len()
            invariant
                i <= self.floor_items@.len(),
                forall|j: int| 0 <= j < i ==> (#[trigger] self.floor_items@[j]).pos != *pos,
            decreases self.floor_items@.len() - i,
        {
            if self.floor_items[i].pos == *pos {
                proof {
                    let ms = self.floor_items@;
                    let w = choose|k: int| 0 <= k < ms.len() && (#[trigger] ms[k]).pos == *pos && forall|j: int|
                        0 <= j < k ==> (#[trigger] ms[j]).pos != *pos;
                    assert(0 <= i < ms.len() && ms[i as int].pos == *pos && forall|j: int|
                        0 <= j < i ==> (#[trigger] ms[j]).pos != *pos);
                    if w < i {
                    } else if w > i {
                        assert(ms[i as int].pos != *pos);
                    }
                }
                return Some(i);
            }
            i = i + 1;
        }
        None
    }

    fn floor_equip_at(&self, pos: &Position) -> (r: Option<usize>)
        ensures
            r.is_some() == spec_equip_at(self.floor_equips@, *pos).is_some(),
            r.is_some() ==> spec_equip_at(self.floor_equips@, *pos) == Some(r.unwrap() as int),
            r.is_some() ==> r.unwrap() < self.floor_equips@.len() && self.floor_equips@[r.unwrap() as int].pos
                == *pos,
    {
        let mut i: usize = 0;
        while i < self.floor_equips.len()
            invariant
                i <= self.floor_equips@.len(),
                forall|j: int| 0 <= j < i ==> (#[trigger] self.floor_equips@[j]).pos != *pos,
            decreases self.floor_equips@.len() - i,
        {
            if self.floor_equips[i].pos == *pos {
                proof {
                    let ms = self.floor_equips@;
                    let w = choose|k: int| 0 <= k < ms.len() && (#[trigger] ms[k]).pos == *pos && forall|j: int|
                        0 <= j < k ==> (#[trigger] ms[j]).pos != *pos;
                    assert(0 <= i < ms.len() && ms[i as int].pos == *pos && forall|j: int|
                        0 <= j < i ==> (#[trigger] ms[j]).pos != *pos);
                    if w < i {
                    } else if w > i {
                        assert(ms[i as int].pos != *pos);
                    }
                }
                return Some(i);
            }
            i = i + 1;
        }
        None
    }

    #[verifier::rlimit(50)]
    #[verifier::spinoff_prover]
    fn pickup_item(&mut self, events: &mut Vec<GameEvent>)
        requires
            old(self).wf(),
        ensures
            item_pickup_post(*old(self), *final(self), old(events)@, final(events)@),
            final(self).wf(),
    {
        let pos = self.player.pos;
        let max_inv = self.data.player.max_inventory;
        if let Some(idx) = self.floor_item_at(&pos) {
            if self.player.inventory_full(max_inv) {
                events.push(GameEvent::InventoryFull);
            } else {
                let ghost inv0 = self.player.inventory@;
                let ghost ev0 = events@;
                let ghost items0 = self.floor_items@;
                let fi = self.floor_items.remove(idx);
                let name = fi.item.name.clone();
                self.player.inventory.push(fi.item);
                events.push(GameEvent::ItemPickedUp { name });
                proof {
                    assert(self.player.inventory@ =~= inv0.push(items0[idx as int].item));
                    assert(self.floor_items@ =~= items0.remove(idx as int));
                    assert(events@ =~= ev0.push(GameEvent::ItemPickedUp { name: items0[idx as int].item.name }));
                    assert forall|k: int| 0 <= k < self.floor_items@.len() implies coord_ok(#[trigger] self.floor_items@[k].pos) by {
                        if k < idx {
                            assert(self.floor_items@[k] == items0[k]);
                        } else {
                            assert(self.floor_items@[k] == items0[k + 1]);
                        }
                    }
                }
            }
        }
    }

    #[verifier::rlimit(50)]
    fn pickup_equip(&mut self, events: &mut Vec<GameEvent>)
        requires
            old(self).wf(),
        ensures
            equip_pickup_post(*old(self), *final(self), old(events)@, final(events)@),
            final(self).wf(),
    {
        let pos = self.player.pos;
        let max_inv = self.data.player.max_inventory;
        if let Some(idx) = self.floor_equip_at(&pos) {
            if self.player.inventory_full(max_inv) {
                events.push(GameEvent::InventoryFull);
            } else {
                let ghost inv0 = self.player.inventory@;
                let ghost ev0 = events@;
                let ghost eqs0 = self.floor_equips@;
                let fe = self.floor_equips.remove(idx);
                let item = equipment_to_item(&fe.equip);
                let name = item.name.clone();
                self.player.inventory.push(item);
                events.push(GameEvent::EquipmentPickedUp { name });
                proof {
                    assert(self.player.inventory@.drop_last() =~= inv0);
                    assert(events@.drop_last() =~= ev0);
                    assert forall|k: int| 0 <= k < self.floor_equips@.len() implies coord_ok(#[trigger] self.floor_equips@[k].pos) by {
                        if k < idx {
                            assert(self.floor_equips@[k] == eqs0[k]);
                        } else {
                            assert(self.floor_equips@[k] == eqs0[k + 1]);
                        }
                    }
                }
            }
        }
    }

    pub fn check_pickup(&mut self, events: &mut Vec<GameEvent>)
        requires
            old(self).wf(),
        ensures
            pickup_post(*old(self), *final(self), old(events)@, final(events)@),
            final(self).wf(),
            same_but_pickups(*old(self), *final(self)),
    {
        self.pickup_item(events);
        let ghost mid = *self;
        let ghost evm = events@;
        self.pickup_equip(events);
        proof {
            assert(item_pickup_post(*old(self), mid, old(events)@, evm));
            assert(equip_pickup_post(mid, *self, evm, events@));
        }
    }
}


/// The event is `ItemUsed` for an item of that name, with the given effect text.
pub open spec fn is_item_used(e: GameEvent, name: String, desc: Seq<char>) -> bool {
    e matches GameEvent::ItemUsed { name: n, effect_desc: d } && n == name && d@ == desc
}

/// `v1` is visibility `v0` after an update from `pos` on `map` with full-map vision `full`.
pub open spec fn vis_updated(v0: Visibility, full: bool, v1: Visibility, map: GameMap, pos: Position) -> bool {
    &&& v1.full_map == full
    &&& forall|p: Position| #[trigger] v1.visible@.contains(p) <==> super::visibility::spec_sees(full, map, pos, p)
    &&& forall|p: Position| #[trigger] v1.visited@.contains(p) <==> (v0.visited@.contains(p) || v1.visible@.contains(p))
}

/// Rust's `/ 10` on an integer, rounding toward zero.
pub open spec fn div10(v: int) -> int {
    if v >= 0 { v / 10 } else { -((-v) / 10) }
}

/// A monster made confused for `turns` turns.
pub open spec fn confused_for(m: Monster, turns: u32) -> Monster {
    Monster { status: StatusEffects { confused: Some(turns), ..m.status }, ..m }
}

/// Everything but the player is unchanged.
pub open spec fn same_but_player(pre: GameState, post: GameState) -> bool {
    &&& post.monsters == pre.monsters
    &&& same_floor(pre, post)
}

/// Using inventory item `idx`: its effect applies, the item is used up and an `ItemUsed`
/// event describes the effect; equipment and staff-only effects are refused with a message
/// and change nothing.
pub open spec fn use_item_post(pre: GameState, post: GameState, idx: int, ev0: Seq<GameEvent>, ev1: Seq<GameEvent>) -> bool {
    let p = pre.player;
    let it = p.inventory@[idx];
    let inv1 = p.inventory@.remove(idx);
    let used = ev1.len() == ev0.len() + 1 && ev1.drop_last() == ev0;
    match it.effect {
        ItemEffect::Heal(amount) => if it.category is Weapon || it.category is Shield {
            post == pre && used && is_message(ev1.last(), "装備品は使えない"@)
        } else {
            let room = p.max_hp - p.hp;
            let healed = if amount < room { amount as int } else { room };
            &&& same_but_player(pre, post)
            &&& post.player.inventory@ == inv1
            &&& used
            &&& if healed > 0 {
                &&& post.player == (Player { hp: (p.hp + healed) as i32, inventory: post.player.inventory, ..p })
                &&& is_item_used(ev1.last(), it.name, "HPが"@ + decimal(healed) + "回復した"@)
            } else {
                &&& post.player == (Player {
                    hp: (p.hp + healed + 1) as i32,
                    max_hp: (p.max_hp + 1) as i32,
                    inventory: post.player.inventory,
                    ..p
                })
                &&& is_item_used(ev1.last(), it.name, "最大HPが1上がった"@)
            }
        },
        ItemEffect::HealFull => {
            &&& same_but_player(pre, post)
            &&& post.player.inventory@ == inv1
            &&& post.player == (Player { hp: p.max_hp, inventory: post.player.inventory, ..p })
            &&& used
            &&& is_item_used(ev1.last(), it.name, "HPが"@ + decimal(p.max_hp - p.hp) + "回復した"@)
        },
        ItemEffect::Food(amount) => {
            let room = p.max_fullness - p.fullness;
            let recovered = if amount < room { amount as int } else { room };
            let filled = if p.fullness + amount < p.max_fullness { p.fullness + amount } else { p.max_fullness as int };
            &&& same_but_player(pre, post)
            &&& post.player.inventory@ == inv1
            &&& post.player == (Player { fullness: filled as i32, inventory: post.player.inventory, ..p })
            &&& used
            &&& is_item_used(ev1.last(), it.name, "満腹度が"@ + decimal(div10(recovered)) + "回復した"@)
        },
        ItemEffect::BoostAttack(amount) => {
            &&& same_but_player(pre, post)
            &&& post.player.inventory@ == inv1
            &&& post.player == (Player { attack: (p.attack + amount) as i32, inventory: post.player.inventory, ..p })
            &&& used
            &&& is_item_used(ev1.last(), it.name, "攻撃力が"@ + decimal(amount as int) + "上がった"@)
        },
        ItemEffect::RevealMap => {
            &&& post.player.inventory@ == inv1
            &&& post.player == (Player { inventory: post.player.inventory, ..p })
            &&& post.monsters == pre.monsters
            &&& vis_updated(pre.visibility, true, post.visibility, pre.map, p.pos)
            &&& post.floor_items == pre.floor_items
            &&& post.floor_equips == pre.floor_equips
            &&& post.map == pre.map
            &&& post.floor == pre.floor
            &&& post.turn == pre.turn
            &&& post.data == pre.data
            &&& used
            &&& is_item_used(ev1.last(), it.name, "フロア全体が明るくなった"@)
        },
        ItemEffect::ConfuseAll { turns } => {
            &&& post.player.inventory@ == inv1
            &&& post.player == (Player { inventory: post.player.inventory, ..p })
            &&& post.monsters@.len() == pre.monsters@.len()
            &&& forall|i: int| 0 <= i < pre.monsters@.len() ==> #[trigger] post.monsters@[i] == confused_for(pre.monsters@[i], turns)
            &&& same_floor(pre, post)
            &&& used
            &&& is_item_used(ev1.last(), it.name, "フロアのモンスター"@ + decimal(pre.monsters@.len() as int) + "体が混乱した"@)
        },
        ItemEffect::TempBoostAttack { amount, turns } => {
            &&& same_but_player(pre, post)
            &&& post.player.inventory@ == inv1
            &&& post.player == (Player {
                status: StatusEffects { attack_boost: Some((amount, turns)), ..p.status },
                inventory: post.player.inventory,
                ..p
            })
            &&& used
            &&& is_item_used(ev1.last(), it.name, "攻撃力が"@ + decimal(turns as int) + "ターンの間"@ + decimal(amount as int) + "上がった"@)
        },
        _ => post == pre && used && is_message(ev1.last(), "このアイテムは使えない"@),
    }
}

impl GameState {
    #[verifier::rlimit(100)]
    #[verifier::spinoff_prover]
    pub fn use_item(&mut self, idx: usize, events: &mut Vec<GameEvent>)
        requires
            old(self).wf(),
            old(self).limits(),
            idx < old(self).player.inventory@.len(),
        ensures
            final(self).wf(),
            final(self).action_bounds(),
            use_item_post(*old(self), *final(self), idx as int, old(events)@, final(events)@),
    {
        proof {
            assert(item_ok(self.player.inventory@[idx as int]));
        }
        let effect = self.player.inventory[idx].effect;
        let category = self.player.inventory[idx].category;
        let name = self.player.inventory[idx].name.clone();
        let ghost ev0 = events@;
        let effect_desc;
        match effect {
            ItemEffect::Heal(amount) => {
                if matches!(category, ItemCategory::Weapon | ItemCategory::Shield) {
                    events.push(GameEvent::Message(owned("装備品は使えない")));
                    proof { assert(events@.drop_last() =~= ev0); }
                    return;
                }
                let room = self.player.max_hp - self.player.hp;
                let healed = if amount < room { amount } else { room };
                self.player.hp = self.player.hp + healed;
                if healed > 0 {
                    effect_desc = text_with_number("HPが", healed as i64, "回復した");
                } else {
                    self.player.max_hp = self.player.max_hp + 1;
                    self.player.hp = self.player.hp + 1;
                    effect_desc = owned("最大HPが1上がった");
                }
            },
            ItemEffect::HealFull => {
                let healed = self.player.max_hp - self.player.hp;
                self.player.hp = self.player.max_hp;
                effect_desc = text_with_number("HPが", healed as i64, "回復した");
            },
            ItemEffect::Food(amount) => {
                let room = self.player.max_fullness - self.player.fullness;
                let recovered = if amount < room { amount } else { room };
                let sum = self.player.fullness + amount;
                self.player.fullness = if sum < self.player.max_fullness { sum } else { self.player.max_fullness };
                let tenth = recovered / 10;
                proof {
                    assert(tenth == div10(recovered as int));
                }
                effect_desc = text_with_number("満腹度が", tenth as i64, "回復した");
            },
            ItemEffect::BoostAttack(amount) => {
                self.player.attack = self.player.attack + amount;
                effect_desc = text_with_number("攻撃力が", amount as i64, "上がった");
            },
            ItemEffect::RevealMap => {
                self.visibility.full_map = true;
                self.visibility.update(&self.player.pos, &self.map);
                effect_desc = owned("フロア全体が明るくなった");
            },
            ItemEffect::ConfuseAll { turns } => {
                let count = self.monsters.len();
                let mut i: usize = 0;
                while i < self.monsters.len()
                    invariant
                        i <= self.monsters@.len(),
                        self.monsters@.len() == old(self).monsters@.len(),
                        forall|j: int| 0 <= j < i ==> #[trigger] self.monsters@[j] == confused_for(old(self).monsters@[j], turns),
                        forall|j: int| i <= j < self.monsters@.len() ==> #[trigger] self.monsters@[j] == old(self).monsters@[j],
                        self.player == old(self).player,
                        same_floor(*old(self), *self),
                    decreases self.monsters@.len() - i,
                {
                    self.monsters[i].status.confused = Some(turns);
                    i = i + 1;
                }
                effect_desc = text_with_number("フロアのモンスター", count as i64, "体が混乱した");
            },
            ItemEffect::TempBoostAttack { amount, turns } => {
                self.player.status.attack_boost = Some((amount, turns));
                let mut d = text_with_number("攻撃力が", turns as i64, "ターンの間");
                push_decimal(&mut d, amount as i64);
                push_text(&mut d, "上がった");
                effect_desc = d;
            },
            _ => {
                events.push(GameEvent::Message(owned("このアイテムは使えない")));
                proof { assert(events@.drop_last() =~= ev0); }
                return;
            },
        }
        self.player.inventory.remove(idx);
        events.push(GameEvent::ItemUsed { name, effect_desc });
        proof {
            assert(events@.drop_last() =~= ev0);
        }
    }
}

/// `p` moved by offset `off`.
pub open spec fn shifted(p: Position, off: Position) -> Position {
    Position { x: (p.x + off.x) as i32, y: (p.y + off.y) as i32 }
}

/// The unit offset of a direction, as a position.
pub open spec fn offset_pos(d: Direction) -> Position {
    Position { x: dir_offset(d).0 as i32, y: dir_offset(d).1 as i32 }
}

/// The monster that a magic bolt flying from `pos` along `off` hits within `steps` cells:
/// the bolt stops at the first cell that cannot be walked on, and hits the first monster in
/// its way.
pub open spec fn bolt_target(map: GameMap, ms: Seq<Monster>, pos: Position, off: Position, steps: int) -> Option<int>
    decreases steps,
{
    if steps <= 0 {
        None
    } else {
        let next = shifted(pos, off);
        if !map.spec_is_walkable(next) {
            None
        } else {
            match spec_monster_at(ms, next) {
                Some(i) => Some(i),
                None => bolt_target(map, ms, next, off, steps - 1),
            }
        }
    }
}

/// A monster standing at `p`.
pub open spec fn placed(m: Monster, p: Position) -> Monster {
    Monster { pos: p, ..m }
}

/// Monster `mi` pushed along `off` for up to `steps` cells: it stops before a cell that
/// cannot be walked on, holds a monster or holds the player. The result is the monsters
/// afterwards and the number of cells moved.
pub open spec fn knock(map: GameMap, ms: Seq<Monster>, mi: int, ppos: Position, off: Position, steps: int) -> (Seq<Monster>, int)
    decreases steps,
{
    if steps <= 0 {
        (ms, 0)
    } else {
        let next = shifted(ms[mi].pos, off);
        if !map.spec_is_walkable(next) || spec_monster_at(ms, next).is_some() || next == ppos {
            (ms, 0)
        } else {
            let r = knock(map, ms.update(mi, placed(ms[mi], next)), mi, ppos, off, steps - 1);
            (r.0, r.1 + 1)
        }
    }
}

/// A monster made paralyzed.
pub open spec fn paralyzed(m: Monster) -> Monster {
    Monster { status: StatusEffects { paralyzed: true, ..m.status }, ..m }
}

/// `ev1` is `ev0` and one message with the given text.
pub open spec fn one_message(ev0: Seq<GameEvent>, ev1: Seq<GameEvent>, text: Seq<char>) -> bool {
    ev1.len() == ev0.len() + 1 && ev1.drop_last() == ev0 && is_message(ev1.last(), text)
}

/// Waving inventory staff `idx`: without charges it does nothing; else it loses a charge and
/// fires a bolt in the player's direction whose effect falls on the monster hit.
pub open spec fn use_staff_post(pre: GameState, post: GameState, idx: int, ev0: Seq<GameEvent>, ev1: Seq<GameEvent>) -> bool {
    let p = pre.player;
    let it = p.inventory@[idx];
    match it.category {
        ItemCategory::Staff(c) => if c <= 0 {
            post == pre && one_message(ev0, ev1, it.name@ + "を振ったが何も起こらなかった"@)
        } else {
            let inv1 = p.inventory@.update(idx, Item { category: ItemCategory::Staff((c - 1) as i32), ..it });
            let off = offset_pos(p.direction);
            let ms = pre.monsters@;
            &&& post.player.inventory@ == inv1
            &&& post.floor_items == pre.floor_items
            &&& post.floor_equips == pre.floor_equips
            &&& post.map == pre.map
            &&& post.floor == pre.floor
            &&& post.turn == pre.turn
            &&& post.data == pre.data
            &&& match bolt_target(pre.map, ms, p.pos, off, pre.data.balance.staff_range as int) {
                None => {
                    &&& post.player == (Player { inventory: post.player.inventory, ..p })
                    &&& post.monsters == pre.monsters
                    &&& post.visibility == pre.visibility
                    &&& one_message(ev0, ev1, it.name@ + "を振った。魔法弾は何にも当たらなかった"@)
                },
                Some(mi) => {
                    let m = ms[mi];
                    match it.effect {
                        ItemEffect::Paralyze => {
                            &&& post.player == (Player { inventory: post.player.inventory, ..p })
                            &&& post.monsters@ == ms.update(mi, paralyzed(m))
                            &&& post.visibility == pre.visibility
                            &&& one_message(ev0, ev1, m.name@ + "は金縛りになった"@)
                        },
                        ItemEffect::Knockback { distance } => {
                            let r = knock(pre.map, ms, mi, p.pos, off, distance as int);
                            &&& post.player == (Player { inventory: post.player.inventory, ..p })
                            &&& post.monsters@ == r.0
                            &&& post.visibility == pre.visibility
                            &&& one_message(ev0, ev1, m.name@ + "を"@ + decimal(r.1) + "マス吹き飛ばした"@)
                        },
                        ItemEffect::SwapPosition => {
                            &&& post.player == (Player { inventory: post.player.inventory, pos: m.pos, ..p })
                            &&& post.monsters@ == ms.update(mi, placed(m, p.pos))
                            &&& vis_updated(pre.visibility, pre.visibility.full_map, post.visibility, pre.map, m.pos)
                            &&& one_message(ev0, ev1, m.name@ + "と場所を入れ替えた"@)
                        },
                        _ => {
                            &&& post.player == (Player { inventory: post.player.inventory, ..p })
                            &&& post.monsters == pre.monsters
                            &&& post.visibility == pre.visibility
                            &&& ev1 == ev0
                        },
                    }
                },
            }
        },
        _ => post == pre && one_message(ev0, ev1, "杖ではない"@),
    }
}

impl GameState {
    pub fn knockback_monster(&mut self, monster_idx: usize, dir: &Position, max_distance: i32) -> (moved_count: i32)
        requires
            old(self).wf(),
            monster_idx < old(self).monsters@.len(),
            -1 <= dir.x <= 1,
            -1 <= dir.y <= 1,
            stat_ok(max_distance as int),
        ensures
            knock(old(self).map, old(self).monsters@, monster_idx as int, old(self).player.pos, *dir, max_distance as int)
                == (final(self).monsters@, moved_count as int),
            final(self).wf(),
            final(self).player == old(self).player,
            same_floor(*old(self), *final(self)),
            final(self).monsters@.len() == old(self).monsters@.len(),
            forall|q: int|
                0 <= q < final(self).monsters@.len() ==> (#[trigger] final(self).monsters@[q]) == placed(
                    old(self).monsters@[q],
                    final(self).monsters@[q].pos,
                ),
    {
        let mut moved: i32 = 0;
        let mut k: i32 = 0;
        let ghost target = knock(self.map, self.monsters@, monster_idx as int, self.player.pos, *dir, max_distance as int);
        while k < max_distance
            invariant
                self.wf(),
                monster_idx < self.monsters@.len(),
                -1 <= dir.x <= 1,
                -1 <= dir.y <= 1,
                stat_ok(max_distance as int),
                0 <= k <= max_distance || (k == 0 && max_distance <= 0),
                moved == k,
                target == knock(old(self).map, old(self).monsters@, monster_idx as int, old(self).player.pos, *dir, max_distance as int),
                self.player == old(self).player,
                same_floor(*old(self), *self),
                self.monsters@.len() == old(self).monsters@.len(),
                forall|q: int|
                    0 <= q < self.monsters@.len() ==> (#[trigger] self.monsters@[q]) == placed(
                        old(self).monsters@[q],
                        self.monsters@[q].pos,
                    ),
                target == (knock(self.map, self.monsters@, monster_idx as int, self.player.pos, *dir, max_distance - k).0,
                    knock(self.map, self.monsters@, monster_idx as int, self.player.pos, *dir, max_distance - k).1 + moved),
            decreases max_distance - k,
        {
            let cur = self.monsters[monster_idx].pos;
            proof {
                assert(monster_coord_ok(self.monsters@[monster_idx as int].pos));
            }
            let next = cur.plus(dir);
            if !self.map.is_walkable(&next) || self.monster_at(&next).is_some() || next == self.player.pos {
                proof {
                    assert(shifted(cur, *dir) == next);
                    assert(knock(self.map, self.monsters@, monster_idx as int, self.player.pos, *dir, max_distance - k)
                        == (self.monsters@, 0int));
                }
                return moved;
            }
            let ghost ms_prev = self.monsters@;
            self.monsters[monster_idx].pos = next;
            proof {
                assert(self.monsters@ =~= ms_prev.update(monster_idx as int, placed(ms_prev[monster_idx as int], next)));
                assert(self.map.in_bounds(next.x as int, next.y as int));
                assert forall|i: int| 0 <= i < self.monsters@.len() implies monster_coord_ok(#[trigger] self.monsters@[i].pos) by {
                    if i != monster_idx {
                        assert(self.monsters@[i] == ms_prev[i]);
                    }
                }
                assert forall|q: int| 0 <= q < self.monsters@.len() implies (#[trigger] self.monsters@[q]) == placed(
                    old(self).monsters@[q], self.monsters@[q].pos) by {
                    assert(ms_prev[q] == placed(old(self).monsters@[q], ms_prev[q].pos));
                }
            }
            moved = moved + 1;
            k = k + 1;
        }
        moved
    }
}

impl GameState {
    /// The monster that a bolt from the player's cell along `off` hits within `range` cells.
    fn fire_bolt(&self, off: &Position, range: i32) -> (hit: Option<usize>)
        requires
            self.wf(),
            -1 <= off.x <= 1,
            -1 <= off.y <= 1,
        ensures
            hit.is_some() == bolt_target(self.map, self.monsters@, self.player.pos, *off, range as int).is_some(),
            hit.is_some() ==> bolt_target(self.map, self.monsters@, self.player.pos, *off, range as int)
                == Some(hit.unwrap() as int) && hit.unwrap() < self.monsters@.len(),
    {
        let mut bolt_pos = self.player.pos;
        let mut k: i32 = 0;
        while k < range
            invariant
                self.wf(),
                -1 <= off.x <= 1,
                -1 <= off.y <= 1,
                0 <= k,
                k <= range || range <= 0,
                coord_ok(bolt_pos),
                bolt_target(self.map, self.monsters@, self.player.pos, *off, range as int)
                    == bolt_target(self.map, self.monsters@, bolt_pos, *off, range - k),
            decreases range - k,
        {
            let next = bolt_pos.plus(off);
            proof {
                assert(shifted(bolt_pos, *off) == next);
            }
            if !self.map.is_walkable(&next) {
                return None;
            }
            if let Some(mi) = self.monster_at(&next) {
                return Some(mi);
            }
            bolt_pos = next;
            k = k + 1;
        }
        None
    }

    #[verifier::rlimit(100)]
    #[verifier::spinoff_prover]
    pub fn use_staff(&mut self, idx: usize, events: &mut Vec<GameEvent>)
        requires
            old(self).wf(),
            old(self).limits(),
            idx < old(self).player.inventory@.len(),
        ensures
            final(self).wf(),
            final(self).action_bounds(),
            use_staff_post(*old(self), *final(self), idx as int, old(events)@, final(events)@),
    {
        proof {
            assert(item_ok(self.player.inventory@[idx as int]));
        }
        let name = self.player.inventory[idx].name.clone();
        let effect = self.player.inventory[idx].effect;
        let ghost ev0 = events@;
        let charges = match self.player.inventory[idx].category {
            ItemCategory::Staff(c) => c,
            _ => {
                events.push(GameEvent::Message(owned("杖ではない")));
                proof { assert(events@.drop_last() =~= ev0); }
                return;
            },
        };
        if charges <= 0 {
            events.push(GameEvent::Message(name_with(&name, "を振ったが何も起こらなかった")));
            proof { assert(events@.drop_last() =~= ev0); }
            return;
        }
        // Spend a charge.
        self.player.inventory[idx].category = ItemCategory::Staff(charges - 1);
        proof {
            let it = old(self).player.inventory@[idx as int];
            assert(self.player.inventory@ =~= old(self).player.inventory@.update(idx as int,
                Item { category: ItemCategory::Staff((charges - 1) as i32), ..it }));
        }

        // Fire a magic bolt in the player's direction.
        let dir_offset = self.player.direction.to_offset();
        let staff_range = self.data.balance.staff_range;
        let hit_monster = self.fire_bolt(&dir_offset, staff_range);
        match hit_monster {
            None => {
                events.push(GameEvent::Message(name_with(&name, "を振った。魔法弾は何にも当たらなかった")));
            },
            Some(mi) => {
                let monster_name = self.monsters[mi].name.clone();
                match effect {
                    ItemEffect::Paralyze => {
                        self.monsters[mi].status.paralyzed = true;
                        events.push(GameEvent::Message(name_with(&monster_name, "は金縛りになった")));
                        proof {
                            assert(self.monsters@ =~= old(self).monsters@.update(mi as int, paralyzed(old(self).monsters@[mi as int])));
                        }
                    },
                    ItemEffect::Knockback { distance } => {
                        let knocked = self.knockback_monster(mi, &dir_offset, distance);
                        let mut msg = name_with(&monster_name, "を");
                        push_decimal(&mut msg, knocked as i64);
                        push_text(&mut msg, "マス吹き飛ばした");
                        events.push(GameEvent::Message(msg));
                    },
                    ItemEffect::SwapPosition => {
                        let player_pos = self.player.pos;
                        let monster_pos = self.monsters[mi].pos;
                        proof {
                            assert(self.map.in_bounds(monster_pos.x as int, monster_pos.y as int)) by {
                                let off = offset_pos(old(self).player.direction);
                                lemma_bolt_target_walkable(self.map, self.monsters@, player_pos, off,
                                    staff_range as int);
                            }
                        }
                        self.player.pos = monster_pos;
                        self.monsters[mi].pos = player_pos;
                        self.visibility.update(&self.player.pos, &self.map);
                        events.push(GameEvent::Message(name_with(&monster_name, "と場所を入れ替えた")));
                        proof {
                            assert(self.monsters@ =~= old(self).monsters@.update(mi as int, placed(old(self).monsters@[mi as int], player_pos)));
                        }
                    },
                    _ => {},
                }
            },
        }
        proof {
            if events@.len() == ev0.len() + 1 {
                assert(events@.drop_last() =~= ev0);
            }
        }
    }
}

/// A bolt only ever hits a monster standing on a walkable cell.
proof fn lemma_bolt_target_walkable(map: GameMap, ms: Seq<Monster>, pos: Position, off: Position, steps: int)
    ensures
        bolt_target(map, ms, pos, off, steps) matches Some(i) ==> 0 <= i < ms.len()
            && map.spec_is_walkable(ms[i].pos),
    decreases steps,
{
    if steps > 0 {
        let next = shifted(pos, off);
        if map.spec_is_walkable(next) {
            lemma_monster_at(ms, next);
            match spec_monster_at(ms, next) {
                Some(i) => {},
                None => lemma_bolt_target_walkable(map, ms, next, off, steps - 1),
            }
        }
    }
}

/// The first monster at `p` stands there, and no monster before it does.
pub proof fn lemma_monster_at(ms: Seq<Monster>, p: Position)
    ensures
        spec_monster_at(ms, p) matches Some(i) ==> 0 <= i < ms.len() && ms[i].pos == p && forall|j: int|
            0 <= j < i ==> (#[trigger] ms[j]).pos != p,
        spec_monster_at(ms, p) is None ==> forall|j: int| 0 <= j < ms.len() ==> (#[trigger] ms[j]).pos != p,
{
    if exists|i: int| 0 <= i < ms.len() && (#[trigger] ms[i]).pos == p {
        let k = choose|i: int| 0 <= i < ms.len() && (#[trigger] ms[i]).pos == p;
        lemma_first_monster_exists(ms, p, k);
    }
}

proof fn lemma_first_monster_exists(ms: Seq<Monster>, p: Position, k: int)
    requires
        0 <= k < ms.len(),
        ms[k].pos == p,
    ensures
        exists|i: int| 0 <= i < ms.len() && (#[trigger] ms[i]).pos == p && forall|j: int|
            0 <= j < i ==> (#[trigger] ms[j]).pos != p,
    decreases k,
{
    if exists|j: int| 0 <= j < k && (#[trigger] ms[j]).pos == p {
        let j = choose|j: int| 0 <= j < k && (#[trigger] ms[j]).pos == p;
        lemma_first_monster_exists(ms, p, j);
    } else {
        assert(0 <= k < ms.len() && ms[k].pos == p && forall|j: int| 0 <= j < k ==> (#[trigger] ms[j]).pos != p);
    }
}

/// Where a thrown item ends.
pub enum ThrowLanding {
    /// It shattered on a wall.
    Wall,
    /// It hit the monster with that index.
    Hit(usize),
    /// It dropped on the floor at that cell.
    Ground(Position),
}

/// The flight of an item thrown from `pos` along `off` for up to `steps` cells: it breaks on
/// the first cell that cannot be walked on, hits the first monster in its way, or drops on
/// the last cell it reached.
pub open spec fn throw_landing(map: GameMap, ms: Seq<Monster>, pos: Position, off: Position, steps: int) -> ThrowLanding
    decreases steps,
{
    if steps <= 0 {
        ThrowLanding::Ground(pos)
    } else {
        let next = shifted(pos, off);
        if !map.spec_is_walkable(next) {
            ThrowLanding::Wall
        } else {
            match spec_monster_at(ms, next) {
                Some(i) => ThrowLanding::Hit(i as usize),
                None => throw_landing(map, ms, next, off, steps - 1),
            }
        }
    }
}

/// Rust's `/ 2` on an integer, rounding toward zero.
pub open spec fn div2(v: int) -> int {
    if v >= 0 { v / 2 } else { -((-v) / 2) }
}

/// The damage a thrown item deals: half the value of a weapon (at least the minimum
/// damage), or the fixed damage of any other item.
pub open spec fn throw_damage(it: Item, bal: super::master_data::BalanceData) -> int {
    if it.category is Weapon {
        let v: int = match it.equip_data {
            Some(d) => d.base_value + d.enhancement,
            None => 0,
        };
        if bal.min_damage > div2(v) { bal.min_damage as int } else { div2(v) }
    } else {
        bal.thrown_non_weapon_damage as int
    }
}

/// The HP that a thrown healing herb restores to a monster (its effect amount, capped by the
/// HP it misses).
pub open spec fn herb_heal(amount: i32, m: Monster) -> int {
    if amount < m.max_hp - m.hp { amount as int } else { m.max_hp - m.hp }
}

/// A monster hit by a thrown herb takes its effect.
pub open spec fn herb_on_monster(it: Item, m: Monster) -> Monster {
    if it.category is Herb {
        match it.effect {
            ItemEffect::Heal(amount) => if herb_heal(amount, m) > 0 {
                Monster { hp: (m.hp + herb_heal(amount, m)) as i32, ..m }
            } else {
                m
            },
            ItemEffect::HealFull => Monster { hp: m.max_hp, ..m },
            ItemEffect::BoostAttack(a) => Monster { attack: (m.attack + a) as i32, ..m },
            _ => m,
        }
    } else {
        m
    }
}

/// What a thrown herb does to a monster, as text (empty for any other item).
pub open spec fn herb_text(it: Item, m: Monster) -> Seq<char> {
    if it.category is Herb {
        match it.effect {
            ItemEffect::Heal(amount) => if herb_heal(amount, m) > 0 {
                "。"@ + m.name@ + "のHPが"@ + decimal(herb_heal(amount, m)) + "回復した"@
            } else {
                seq![]
            },
            ItemEffect::HealFull => "。"@ + m.name@ + "のHPが全回復した"@,
            ItemEffect::BoostAttack(a) => "。"@ + m.name@ + "の攻撃力が"@ + decimal(a as int) + "上がった"@,
            _ => seq![],
        }
    } else {
        seq![]
    }
}

/// The event is `ItemThrown` for an item of that name, with the given result text.
pub open spec fn is_item_thrown(e: GameEvent, name: String, desc: Seq<char>) -> bool {
    e matches GameEvent::ItemThrown { name: n, result_desc: d } && n == name && d@ == desc
}

/// Throwing inventory item `idx` in the player's direction: it leaves the inventory and
/// breaks on a wall, drops on the floor, or hits a monster (damage, herb effect, and a kill
/// when its HP drops to 0 or below).
pub open spec fn throw_post(pre: GameState, post: GameState, idx: int, ev0: Seq<GameEvent>, ev1: Seq<GameEvent>) -> bool {
    let p = pre.player;
    let it = p.inventory@[idx];
    let p1 = Player { inventory: post.player.inventory, ..p };
    let ms = pre.monsters@;
    let ev_t = ev1.subrange(0, ev0.len() + 1int);
    &&& ev1.len() >= ev0.len() + 1
    &&& ev1.subrange(0, ev0.len() as int) == ev0
    &&& match throw_landing(pre.map, ms, p.pos, offset_pos(p.direction), pre.data.balance.throw_range as int) {
        ThrowLanding::Wall => {
            &&& post.player == p1
            &&& post.player.inventory@ == p.inventory@.remove(idx)
            &&& post.monsters == pre.monsters
            &&& same_floor(pre, post)
            &&& ev1.len() == ev0.len() + 1
            &&& is_item_thrown(ev1.last(), it.name, "壁に当たって砕けた"@)
        },
        ThrowLanding::Ground(q) => {
            &&& post.player == p1
            &&& post.player.inventory@ == p.inventory@.remove(idx)
            &&& post.monsters == pre.monsters
            &&& post.floor_items@ == pre.floor_items@.push(FloorItem { item: it, pos: q })
            &&& post.floor_equips == pre.floor_equips
            &&& post.map == pre.map
            &&& post.visibility == pre.visibility
            &&& post.floor == pre.floor
            &&& post.turn == pre.turn
            &&& post.data == pre.data
            &&& ev1.len() == ev0.len() + 1
            &&& is_item_thrown(ev1.last(), it.name, "地面に落ちた"@)
        },
        ThrowLanding::Hit(mi) => {
            let m = ms[mi as int];
            let dmg = throw_damage(it, pre.data.balance);
            let m1 = wounded(m, dmg);
            let m2 = herb_on_monster(it, m1);
            let desc = m.name@ + "に"@ + decimal(dmg) + "ダメージを与えた"@ + herb_text(it, m1);
            &&& is_item_thrown(ev1[ev0.len() as int], it.name, desc)
            &&& if m2.hp > 0 {
                &&& post.player == p1
                &&& post.player.inventory@ == p.inventory@.remove(idx)
                &&& post.monsters@ == ms.update(mi as int, m2)
                &&& same_floor(pre, post)
                &&& ev1.len() == ev0.len() + 1
            } else {
                exists|p_base: Player|
                    p_base.inventory@ == p.inventory@.remove(idx) && #[trigger] defeat_post_with(pre, p_base, post, mi as int, m.name, ev_t, ev1)
                    && p_base == (Player { inventory: p_base.inventory, ..p })
            }
        },
    }
}

impl GameState {
    /// Where an item thrown from the player's cell along `off` for `range` cells ends.
    fn throw_flight(&self, off: &Position, range: i32) -> (r: ThrowLanding)
        requires
            self.wf(),
            -1 <= off.x <= 1,
            -1 <= off.y <= 1,
        ensures
            r == throw_landing(self.map, self.monsters@, self.player.pos, *off, range as int),
            r matches ThrowLanding::Hit(mi) ==> mi < self.monsters@.len(),
            r matches ThrowLanding::Ground(q) ==> coord_ok(q),
    {
        let mut throw_pos = self.player.pos;
        let mut k: i32 = 0;
        while k < range
            invariant
                self.wf(),
                -1 <= off.x <= 1,
                -1 <= off.y <= 1,
                0 <= k,
                k <= range || range <= 0,
                coord_ok(throw_pos),
                throw_landing(self.map, self.monsters@, self.player.pos, *off, range as int)
                    == throw_landing(self.map, self.monsters@, throw_pos, *off, range - k),
            decreases range - k,
        {
            let next = throw_pos.plus(off);
            proof {
                assert(shifted(throw_pos, *off) == next);
            }
            if !self.map.is_walkable(&next) {
                return ThrowLanding::Wall;
            }
            if let Some(mi) = self.monster_at(&next) {
                return ThrowLanding::Hit(mi);
            }
            throw_pos = next;
            k = k + 1;
        }
        ThrowLanding::Ground(throw_pos)
    }

    #[verifier::rlimit(100)]
    #[verifier::spinoff_prover]
    pub fn throw_item(&mut self, idx: usize, events: &mut Vec<GameEvent>)
        requires
            old(self).wf(),
            old(self).limits(),
            idx < old(self).player.inventory@.len(),
        ensures
            final(self).wf(),
            final(self).action_bounds(),
            throw_post(*old(self), *final(self), idx as int, old(events)@, final(events)@),
    {
        proof {
            assert(item_ok(self.player.inventory@[idx as int]));
            lemma_limits_attacks(*self);
        }
        let ghost ev0 = events@;
        let item = self.player.inventory.remove(idx);
        let name = item.name.clone();
        let category = item.category;
        let effect = item.effect;
        let dir_offset = self.player.direction.to_offset();
        let throw_range = self.data.balance.throw_range;
        let thrown_non_weapon_damage = self.data.balance.thrown_non_weapon_damage;
        let min_damage = self.data.balance.min_damage;

        match self.throw_flight(&dir_offset, throw_range) {
            ThrowLanding::Wall => {
                events.push(GameEvent::ItemThrown { name, result_desc: owned("壁に当たって砕けた") });
                proof { assert(events@.subrange(0, ev0.len() as int) =~= ev0); }
            },
            ThrowLanding::Ground(q) => {
                self.floor_items.push(FloorItem { item, pos: q });
                events.push(GameEvent::ItemThrown { name, result_desc: owned("地面に落ちた") });
                proof { assert(events@.subrange(0, ev0.len() as int) =~= ev0); }
            },
            ThrowLanding::Hit(mi) => {
                proof {
                    assert(monster_ok(self.monsters@[mi as int]));
                }
                let damage = match category {
                    ItemCategory::Weapon => {
                        let attack_value = match item.equip_data {
                            Some(d) => d.base_value + d.enhancement,
                            None => 0,
                        };
                        let half = attack_value / 2;
                        proof { assert(half == div2(attack_value as int)); }
                        if min_damage > half { min_damage } else { half }
                    },
                    _ => thrown_non_weapon_damage,
                };
                let ghost m = self.monsters@[mi as int];
                self.monsters[mi].hp = self.monsters[mi].hp - damage;
                let ghost m1 = self.monsters@[mi as int];
                let monster_name = self.monsters[mi].name.clone();
                let mut result_desc = name_with(&monster_name, "に");
                push_decimal(&mut result_desc, damage as i64);
                push_text(&mut result_desc, "ダメージを与えた");
                if matches!(category, ItemCategory::Herb) {
                    match effect {
                        ItemEffect::Heal(amount) => {
                            let room = self.monsters[mi].max_hp - self.monsters[mi].hp;
                            let healed = if amount < room { amount } else { room };
                            if healed > 0 {
                                self.monsters[mi].hp = self.monsters[mi].hp + healed;
                                push_text(&mut result_desc, "。");
                                push_text(&mut result_desc, monster_name.as_str());
                                push_text(&mut result_desc, "のHPが");
                                push_decimal(&mut result_desc, healed as i64);
                                push_text(&mut result_desc, "回復した");
                            }
                        },
                        ItemEffect::HealFull => {
                            self.monsters[mi].hp = self.monsters[mi].max_hp;
                            push_text(&mut result_desc, "。");
                            push_text(&mut result_desc, monster_name.as_str());
                            push_text(&mut result_desc, "のHPが全回復した");
                        },
                        ItemEffect::BoostAttack(amount) => {
                            self.monsters[mi].attack = self.monsters[mi].attack + amount;
                            push_text(&mut result_desc, "。");
                            push_text(&mut result_desc, monster_name.as_str());
                            push_text(&mut result_desc, "の攻撃力が");
                            push_decimal(&mut result_desc, amount as i64);
                            push_text(&mut result_desc, "上がった");
                        },
                        _ => {},
                    }
                }
                proof {
                    let desc = m.name@ + "に"@ + decimal(damage as int) + "ダメージを与えた"@ + herb_text(item, m1);
                    assert(result_desc@ =~= desc);
                    assert(self.monsters@ =~= old(self).monsters@.update(mi as int, herb_on_monster(item, m1)));
                    lemma_attacks_update(old(self).monsters@, mi as int, herb_on_monster(item, m1), 2 * STAT_LIMIT);
                }
                if self.monsters[mi].hp <= 0 {
                    let exp = self.monsters[mi].exp;
                    let ghost p_base = self.player;
                    let ghost ms_hit = self.monsters@;
                    self.monsters.remove(mi);
                    events.push(GameEvent::ItemThrown { name, result_desc });
                    let ghost ev_t = events@;
                    events.push(GameEvent::MonsterDefeated { name: monster_name, exp });
                    self.player.exp = self.player.exp + exp;
                    self.player.kill_count = self.player.kill_count + 1;
                    proof {
                        assert(self.monsters@ =~= old(self).monsters@.remove(mi as int));
                        assert(self.player == credited(p_base, m.exp));
                    }
                    let ghost ev_k = events@;
                    self.check_level_up(events);
                    proof {
                        assert(events@.subrange(0, ev_t.len() as int) =~= ev_t) by {
                            assert forall|k: int| 0 <= k < ev_t.len() implies events@[k] == ev_t[k] by {
                                assert(ev_k[k] == ev_t[k]);
                            }
                        }
                        assert(events@.subrange(0, ev0.len() as int) =~= ev0) by {
                            assert forall|k: int| 0 <= k < ev0.len() implies events@[k] == ev0[k] by {
                                assert(ev_t[k] == ev0[k]);
                            }
                        }
                        assert(events@[ev0.len() as int] == ev_t[ev0.len() as int]);
                        assert(defeat_post_with(*old(self), p_base, *self, mi as int, m.name, ev_t, events@));
                        lemma_attacks_remove(ms_hit, mi as int, 2 * STAT_LIMIT);
                        let t = self.data.player.level_table@;
                        let pc = credited(p_base, m.exp);
                        lemma_level_up_entry_range(t, t.len() as int, pc.exp, pc.level);
                        if let Some(i) = spec_level_up_entry(t, t.len() as int, pc.exp, pc.level) {
                            assert(level_entry_ok(t[i]));
                        }
                    }
                } else {
                    events.push(GameEvent::ItemThrown { name, result_desc });
                    proof { assert(events@.subrange(0, ev0.len() as int) =~= ev0); }
                }
            },
        }
    }
}

/// The sign of an integer: -1, 0 or 1.
pub open spec fn sign(v: int) -> int {
    if v > 0 { 1 } else if v < 0 { -1 } else { 0 }
}

/// One candidate step `off` of a chasing monster at `mpos`: `Some(r)` when the candidate
/// decides the chase (`r` is the cell to step to, or `None` to stay), `None` to try the next.
pub open spec fn chase_try(map: GameMap, ms: Seq<Monster>, mpos: Position, ppos: Position, off: Position) -> Option<Option<Position>> {
    if off.x == 0 && off.y == 0 {
        None
    } else {
        let t = shifted(mpos, off);
        if in_square(ppos, t) && t != ppos {
            Some(Some(t))
        } else if t == ppos {
            Some(None)
        } else if map.spec_is_walkable(t) && spec_monster_at(ms, t).is_none() {
            Some(Some(t))
        } else {
            None
        }
    }
}

/// The cell a monster at `mpos` steps to when it chases the player at `ppos`: it tries the
/// diagonal step toward the player, then the horizontal one, then the vertical one; a step
/// that ends next to the player is taken at once, one onto the player ends the chase, and
/// any other is taken when the cell is walkable and free of monsters.
pub open spec fn chase_target(map: GameMap, ms: Seq<Monster>, mpos: Position, ppos: Position) -> Option<Position> {
    let dx = sign(ppos.x - mpos.x) as i32;
    let dy = sign(ppos.y - mpos.y) as i32;
    match chase_try(map, ms, mpos, ppos, Position { x: dx, y: dy }) {
        Some(r) => r,
        None => match chase_try(map, ms, mpos, ppos, Position { x: dx, y: 0 }) {
            Some(r) => r,
            None => match chase_try(map, ms, mpos, ppos, Position { x: 0, y: dy }) {
                Some(r) => r,
                None => None,
            },
        },
    }
}

/// A cell that a monster at `mpos` can wander to: a neighbour that is walkable, free of
/// monsters and not the player's cell.
pub open spec fn free_step(map: GameMap, ms: Seq<Monster>, mpos: Position, ppos: Position, t: Position) -> bool {
    is_neighbour(mpos, t) && map.spec_is_walkable(t) && spec_monster_at(ms, t).is_none() && t != ppos
}

/// A random step of monster `i`: it moves to some free neighbouring cell, with a
/// `MonsterMoved` event, or stays when there is none.
pub open spec fn wander_post(
    map: GameMap,
    ppos: Position,
    ms0: Seq<Monster>,
    i: int,
    ev0: Seq<GameEvent>,
    ms1: Seq<Monster>,
    ev1: Seq<GameEvent>,
) -> bool {
    let mpos = ms0[i].pos;
    ||| (forall|t: Position| !#[trigger] free_step(map, ms0, mpos, ppos, t)) && ms1 == ms0 && ev1 == ev0
    ||| exists|t: Position| #[trigger] free_step(map, ms0, mpos, ppos, t) && ms1 == ms0.update(i, placed(ms0[i], t))
        && ev1 == ev0.push(GameEvent::MonsterMoved { id: i as usize, from: mpos, to: t })
}

/// The turn of monster `i`, given the map, the player's cell and defense and the balance:
/// a paralyzed monster does nothing; a confused one wanders; one next to the player attacks
/// it; one in the player's room or within detection range chases it when it can; any other
/// wanders.
pub open spec fn monster_step(
    map: GameMap,
    ppos: Position,
    defense: int,
    bal: super::master_data::BalanceData,
    ms0: Seq<Monster>,
    hp0: int,
    ev0: Seq<GameEvent>,
    i: int,
    ms1: Seq<Monster>,
    hp1: int,
    ev1: Seq<GameEvent>,
) -> bool {
    let m = ms0[i];
    let mpos = m.pos;
    if m.status.paralyzed {
        ms1 == ms0 && hp1 == hp0 && ev1 == ev0
    } else if m.status.confused.is_some() {
        hp1 == hp0 && wander_post(map, ppos, ms0, i, ev0, ms1, ev1)
    } else if in_square(ppos, mpos) && mpos != ppos {
        let dmg = spec_damage(bal.min_damage as int, m.attack as int, defense);
        &&& ms1 == ms0
        &&& hp1 == hp0 - dmg
        &&& ev1 == ev0.push(GameEvent::MonsterAttacked { name: m.name, damage: dmg as i32 }).push(
            GameEvent::PlayerDamaged { amount: dmg as i32, remaining_hp: hp1 as i32 },
        )
    } else if (map.spec_same_room(mpos, ppos) || mpos.spec_manhattan(ppos) <= bal.detection_range)
        && chase_target(map, ms0, mpos, ppos).is_some() {
        let t = chase_target(map, ms0, mpos, ppos).unwrap();
        &&& hp1 == hp0
        &&& ms1 == ms0.update(i, placed(m, t))
        &&& ev1 == ev0.push(GameEvent::MonsterMoved { id: i as usize, from: mpos, to: t })
    } else {
        hp1 == hp0 && wander_post(map, ppos, ms0, i, ev0, ms1, ev1)
    }
}

/// The state of the monsters' phase: the monsters, the player's HP and the events so far.
pub type PhaseState = (Seq<Monster>, int, Seq<GameEvent>);

/// Step `k` of a run of the monsters' phase: the player was alive and monster `k` acted.
pub open spec fn trace_step_ok(
    map: GameMap,
    ppos: Position,
    defense: int,
    bal: super::master_data::BalanceData,
    trace: Seq<PhaseState>,
    k: int,
) -> bool {
    trace[k].1 > 0 && monster_step(
        map, ppos, defense, bal,
        trace[k].0, trace[k].1, trace[k].2, k,
        trace[k + 1].0, trace[k + 1].1, trace[k + 1].2,
    )
}

/// A run of the monsters' phase: the monsters act in order, each step as `monster_step`
/// says; the phase stops after the last monster, or as soon as the player's HP drops to 0.
pub open spec fn monsters_trace(
    map: GameMap,
    ppos: Position,
    defense: int,
    bal: super::master_data::BalanceData,
    trace: Seq<PhaseState>,
) -> bool {
    &&& trace.len() >= 1
    &&& trace.len() - 1 <= trace[0].0.len()
    &&& forall|k: int| 0 <= k < trace.len() - 1 ==> #[trigger] trace_step_ok(map, ppos, defense, bal, trace, k)
    &&& (trace.len() - 1 == trace[0].0.len() || trace.last().1 <= 0)
}

/// The monsters' phase of a turn, from `pre` to `post`.
pub open spec fn monsters_post(pre: GameState, post: GameState, ev0: Seq<GameEvent>, ev1: Seq<GameEvent>) -> bool {
    &&& exists|trace: Seq<PhaseState>| {
        &&& #[trigger] monsters_trace(pre.map, pre.player.pos, pre.player.spec_effective_defense(), pre.data.balance, trace)
        &&& trace[0] == (pre.monsters@, pre.player.hp as int, ev0)
        &&& trace.last() == (post.monsters@, post.player.hp as int, ev1)
    }
    &&& post.player == (Player { hp: post.player.hp, ..pre.player })
    &&& same_floor(pre, post)
}

/// Every neighbour of `a` lies one direction step away from it.
proof fn lemma_neighbour_direction(a: Position, t: Position)
    requires
        is_neighbour(a, t),
        monster_coord_ok(a),
    ensures
        exists|k: int| 0 <= k < 8 && #[trigger] dir_target(a, k) == t,
{
    let dx = t.x - a.x;
    let dy = t.y - a.y;
    let k: int = if dx == 0 && dy == -1 { 0 } else if dx == 0 && dy == 1 { 1 } else if dx == -1 && dy == 0 {
        2
    } else if dx == 1 && dy == 0 { 3 } else if dx == -1 && dy == -1 { 4 } else if dx == 1 && dy == -1 {
        5
    } else if dx == -1 && dy == 1 { 6 } else { 7 };
    reveal(dir_target);
    assert(dir_target(a, k) == t);
}

/// The cell one step from `a` in the `k`-th direction.
#[verifier::opaque]
pub open spec fn dir_target(a: Position, k: int) -> Position {
    shifted(a, offset_pos(all_directions()[k]))
}

impl GameState {
    fn chase_candidate(&self, mpos: &Position, ppos: &Position, off: &Position) -> (r: Option<Option<Position>>)
        requires
            self.wf(),
            monster_coord_ok(*mpos),
            coord_ok(*ppos),
            -1 <= off.x <= 1,
            -1 <= off.y <= 1,
        ensures
            r == chase_try(self.map, self.monsters@, *mpos, *ppos, *off),
    {
        if off.x == 0 && off.y == 0 {
            return None;
        }
        let target = mpos.plus(off);
        proof {
            assert(shifted(*mpos, *off) == target);
        }
        let ax = if target.x >= ppos.x { target.x - ppos.x } else { ppos.x - target.x };
        let ay = if target.y >= ppos.y { target.y - ppos.y } else { ppos.y - target.y };
        if ax <= 1 && ay <= 1 && target != *ppos {
            return Some(Some(target));
        }
        if target == *ppos {
            return Some(None);
        }
        if self.map.is_walkable(&target) && self.monster_at(&target).is_none() {
            return Some(Some(target));
        }
        None
    }

    pub fn chase_player(&self, monster_idx: usize) -> (r: Option<Position>)
        requires
            self.wf(),
            monster_idx < self.monsters@.len(),
        ensures
            r == chase_target(self.map, self.monsters@, self.monsters@[monster_idx as int].pos, self.player.pos),
    {
        let mpos = self.monsters[monster_idx].pos;
        let ppos = self.player.pos;
        proof {
            assert(monster_coord_ok(self.monsters@[monster_idx as int].pos));
        }
        let dx: i32 = if ppos.x > mpos.x { 1 } else if ppos.x < mpos.x { -1 } else { 0 };
        let dy: i32 = if ppos.y > mpos.y { 1 } else if ppos.y < mpos.y { -1 } else { 0 };
        match self.chase_candidate(&mpos, &ppos, &Position::new(dx, dy)) {
            Some(r) => r,
            None => match self.chase_candidate(&mpos, &ppos, &Position::new(dx, 0)) {
                Some(r) => r,
                None => match self.chase_candidate(&mpos, &ppos, &Position::new(0, dy)) {
                    Some(r) => r,
                    None => None,
                },
            },
        }
    }

    fn is_free_step(&self, mpos: &Position, t: &Position) -> (b: bool)
        requires
            self.wf(),
        ensures
            b == free_step(self.map, self.monsters@, *mpos, self.player.pos, *t),
    {
        let ax = if t.x as i64 >= mpos.x as i64 { t.x as i64 - mpos.x as i64 } else { mpos.x as i64 - t.x as i64 };
        let ay = if t.y as i64 >= mpos.y as i64 { t.y as i64 - mpos.y as i64 } else { mpos.y as i64 - t.y as i64 };
        ax <= 1 && ay <= 1 && *t != *mpos && self.map.is_walkable(t) && self.monster_at(t).is_none() && *t != self.player.pos
    }

    /// The free cells around `mpos`, in direction order.
    fn free_targets(&self, mpos: &Position) -> (free: Vec<Position>)
        requires
            self.wf(),
            monster_coord_ok(*mpos),
        ensures
            forall|j: int| 0 <= j < free@.len() ==> free_step(self.map, self.monsters@, *mpos, self.player.pos, #[trigger] free@[j]),
            forall|j: int| 0 <= j < 8 ==> !free_step(self.map, self.monsters@, *mpos, self.player.pos, #[trigger] dir_target(*mpos, j))
                || free@.contains(dir_target(*mpos, j)),
    {
        let ppos = self.player.pos;
        let dirs = Direction::all();
        let mut free: Vec<Position> = Vec::new();
        let mut k: usize = 0;
        while k < 8
            invariant
                self.wf(),
                ppos == self.player.pos,
                monster_coord_ok(*mpos),
                dirs@ == all_directions(),
                k <= 8,
                forall|j: int| 0 <= j < free@.len() ==> free_step(self.map, self.monsters@, *mpos, ppos, #[trigger] free@[j]),
                forall|j: int| 0 <= j < k ==> !free_step(self.map, self.monsters@, *mpos, ppos, #[trigger] dir_target(*mpos, j))
                    || free@.contains(dir_target(*mpos, j)),
            decreases 8 - k,
        {
            let off = dirs[k].to_offset();
            let t = mpos.plus(&off);
            proof {
                reveal(dir_target);
                assert(dir_target(*mpos, k as int) == t);
            }
            if self.is_free_step(mpos, &t) {
                let ghost old_free = free@;
                free.push(t);
                proof {
                    assert(free@[old_free.len() as int] == t);
                    assert forall|j: int| 0 <= j < k + 1 implies !free_step(self.map, self.monsters@, *mpos, ppos, #[trigger] dir_target(*mpos, j))
                        || free@.contains(dir_target(*mpos, j)) by {
                        let tt = dir_target(*mpos, j);
                        if j < k && old_free.contains(tt) {
                            let q = choose|q: int| 0 <= q < old_free.len() && old_free[q] == tt;
                            assert(free@[q] == tt);
                        }
                    }
                }
            }
            k = k + 1;
        }
        free
    }

    /// A random step of monster `i` to a free neighbouring cell, if there is one.
    fn wander(&mut self, i: usize, events: &mut Vec<GameEvent>)
        requires
            old(self).wf(),
            i < old(self).monsters@.len(),
        ensures
            wander_post(old(self).map, old(self).player.pos, old(self).monsters@, i as int, old(events)@,
                final(self).monsters@, final(events)@),
            final(self).wf(),
            final(self).player == old(self).player,
            same_floor(*old(self), *final(self)),
    {
        let mpos = self.monsters[i].pos;
        let ppos = self.player.pos;
        proof {
            assert(monster_coord_ok(self.monsters@[i as int].pos));
        }
        let free = self.free_targets(&mpos);
        if free.len() > 0 {
            let j = random_below(free.len());
            let t = free[j];
            let ghost ms0 = self.monsters@;
            self.monsters[i].pos = t;
            events.push(GameEvent::MonsterMoved { id: i, from: mpos, to: t });
            proof {
                assert(free_step(self.map, ms0, mpos, ppos, t));
                assert(self.monsters@ =~= ms0.update(i as int, placed(ms0[i as int], t)));
                assert(self.map.in_bounds(t.x as int, t.y as int));
                assert forall|q: int| 0 <= q < self.monsters@.len() implies monster_coord_ok(#[trigger] self.monsters@[q].pos) by {
                    if q != i {
                        assert(self.monsters@[q] == ms0[q]);
                    }
                }
            }
        } else {
            proof {
                assert forall|t: Position| !#[trigger] free_step(self.map, self.monsters@, mpos, ppos, t) by {
                    if free_step(self.map, self.monsters@, mpos, ppos, t) {
                        lemma_neighbour_direction(mpos, t);
                        let j = choose|j: int| 0 <= j < 8 && #[trigger] dir_target(mpos, j) == t;
                        assert(free@.contains(t));
                    }
                }
            }
        }
    }
}

impl GameState {
    #[verifier::rlimit(100)]
    #[verifier::spinoff_prover]
    pub fn process_monster_turns(&mut self, events: &mut Vec<GameEvent>)
        requires
            old(self).wf(),
            old(self).player.hp > 0,
            old(self).player.hp <= 3 * STAT_LIMIT,
            stat_ok(old(self).player.defense as int),
            equip_ok(old(self).player.shield),
            data_ok(*old(self).data),
            forall|k: int|
                0 <= k < old(self).monsters@.len() ==> -2 * STAT_LIMIT <= #[trigger] old(self).monsters@[k].attack
                    <= 2 * STAT_LIMIT,
        ensures
            monsters_post(*old(self), *final(self), old(events)@, final(events)@),
            final(self).wf(),
            forall|k: int| 0 <= k < final(self).monsters@.len() ==> (#[trigger] final(self).monsters@[k]) == placed(old(self).monsters@[k], final(self).monsters@[k].pos),
            final(self).monsters@.len() == old(self).monsters@.len(),
    {
        let shield_bonus = match &self.player.shield {
            Some(s) => s.effective_value(),
            None => 0,
        };
        let defense = self.player.defense + shield_bonus;
        let min_damage = self.data.balance.min_damage;
        let detection_range = self.data.balance.detection_range;
        let ghost bal = self.data.balance;
        let ghost map = self.map;
        let ghost ppos = self.player.pos;
        let n = self.monsters.len();
        let ghost mut trace: Seq<PhaseState> = seq![(self.monsters@, self.player.hp as int, events@)];
        let mut i: usize = 0;
        while i < n
            invariant
                self.wf(),
                n == self.monsters@.len(),
                n == old(self).monsters@.len(),
                i <= n,
                map == self.map,
                ppos == self.player.pos,
                bal == self.data.balance,
                bal == old(self).data.balance,
                min_damage == bal.min_damage,
                detection_range == bal.detection_range,
                defense == old(self).player.spec_effective_defense(),
                0 <= bal.min_damage <= STAT_LIMIT,
                -3 * STAT_LIMIT <= defense <= 3 * STAT_LIMIT,
                self.player == (Player { hp: self.player.hp, ..old(self).player }),
                same_floor(*old(self), *self),
                0 < self.player.hp <= old(self).player.hp,
                old(self).player.hp <= 3 * STAT_LIMIT,
                forall|k: int| 0 <= k < n ==> (#[trigger] self.monsters@[k]) == placed(old(self).monsters@[k], self.monsters@[k].pos),
                forall|k: int|
                    0 <= k < n ==> -2 * STAT_LIMIT <= #[trigger] old(self).monsters@[k].attack <= 2 * STAT_LIMIT,
                trace.len() == i + 1,
                trace[0] == (old(self).monsters@, old(self).player.hp as int, old(events)@),
                trace.last() == (self.monsters@, self.player.hp as int, events@),
                forall|k: int| 0 <= k < trace.len() - 1 ==> #[trigger] trace_step_ok(map, ppos, defense as int, bal, trace, k),
            decreases n - i,
        {
            let ghost ms0 = self.monsters@;
            let ghost hp0 = self.player.hp as int;
            let ghost ev0 = events@;
            proof {
                assert(-2 * STAT_LIMIT <= old(self).monsters@[i as int].attack <= 2 * STAT_LIMIT);
                assert(self.monsters@[i as int] == placed(old(self).monsters@[i as int], self.monsters@[i as int].pos));
            }
            if self.monsters[i].status.paralyzed {
                // Paralyzed monsters skip their turn entirely.
            } else {
                let monster_pos = self.monsters[i].pos;
                proof {
                    assert(monster_coord_ok(self.monsters@[i as int].pos));
                }
                if self.monsters[i].status.confused.is_some() {
                    // Confused monsters move randomly (no attacking).
                    self.wander(i, events);
                } else {
                    let ppos_e = self.player.pos;
                    let ax = if monster_pos.x >= ppos_e.x { monster_pos.x - ppos_e.x } else { ppos_e.x - monster_pos.x };
                    let ay = if monster_pos.y >= ppos_e.y { monster_pos.y - ppos_e.y } else { ppos_e.y - monster_pos.y };
                    if ax <= 1 && ay <= 1 && monster_pos != ppos_e {
                        let diff = self.monsters[i].attack - defense;
                        let damage = if min_damage > diff { min_damage } else { diff };
                        self.player.hp = self.player.hp - damage;
                        let name = self.monsters[i].name.clone();
                        events.push(GameEvent::MonsterAttacked { name, damage });
                        events.push(GameEvent::PlayerDamaged { amount: damage, remaining_hp: self.player.hp });
                    } else {
                        let mut chased = false;
                        if self.map.is_same_room(&monster_pos, &ppos_e) {
                            if let Some(new_pos) = self.chase_player(i) {
                                self.move_monster(i, new_pos, events);
                                chased = true;
                            }
                        }
                        if !chased && monster_pos.manhattan_distance(&ppos_e) <= detection_range {
                            if let Some(new_pos) = self.chase_player(i) {
                                self.move_monster(i, new_pos, events);
                                chased = true;
                            }
                        }
                        if !chased {
                            self.wander(i, events);
                        }
                    }
                }
            }
            proof {
                assert(monster_step(map, ppos, defense as int, bal, ms0, hp0, ev0, i as int,
                    self.monsters@, self.player.hp as int, events@));
                let trace1 = trace.push((self.monsters@, self.player.hp as int, events@));
                assert forall|k: int| 0 <= k < trace1.len() - 1 implies #[trigger] trace_step_ok(map, ppos, defense as int, bal, trace1, k) by {
                    if k < trace.len() - 1 {
                        assert(trace_step_ok(map, ppos, defense as int, bal, trace, k));
                        assert(trace1[k] == trace[k] && trace1[k + 1] == trace[k + 1]);
                    } else {
                        assert(trace1[k] == (ms0, hp0, ev0));
                    }
                }
                trace = trace1;
            }
            if self.player.hp <= 0 {
                proof {
                    assert(monsters_trace(map, ppos, defense as int, bal, trace));
                }
                return;
            }
            i = i + 1;
        }
        proof {
            assert(trace.len() - 1 == trace[0].0.len());
            assert(monsters_trace(map, ppos, defense as int, bal, trace));
        }
    }

    /// Moves monster `i` to the cell a chase picked, with a `MonsterMoved` event.
    fn move_monster(&mut self, i: usize, to: Position, events: &mut Vec<GameEvent>)
        requires
            old(self).wf(),
            i < old(self).monsters@.len(),
            chase_target(old(self).map, old(self).monsters@, old(self).monsters@[i as int].pos, old(self).player.pos)
                == Some(to),
        ensures
            final(self).monsters@ == old(self).monsters@.update(i as int, placed(old(self).monsters@[i as int], to)),
            final(events)@ == old(events)@.push(GameEvent::MonsterMoved { id: i, from: old(self).monsters@[i as int].pos, to }),
            final(self).wf(),
            final(self).player == old(self).player,
            same_floor(*old(self), *final(self)),
    {
        let from = self.monsters[i].pos;
        proof {
            lemma_chase_target_bounds(self.map, self.monsters@, from, self.player.pos);
        }
        let ghost ms0 = self.monsters@;
        self.monsters[i].pos = to;
        events.push(GameEvent::MonsterMoved { id: i, from, to });
        proof {
            assert(self.monsters@ =~= ms0.update(i as int, placed(ms0[i as int], to)));
            assert forall|q: int| 0 <= q < self.monsters@.len() implies monster_coord_ok(#[trigger] self.monsters@[q].pos) by {
                if q != i {
                    assert(self.monsters@[q] == ms0[q]);
                }
            }
        }
    }
}

/// A chase ends on a walkable cell of the map or next to the player.
proof fn lemma_chase_target_bounds(map: GameMap, ms: Seq<Monster>, mpos: Position, ppos: Position)
    requires
        map.wf(),
        map.width <= COORD_LIMIT,
        map.height <= COORD_LIMIT,
        coord_ok(ppos),
    ensures
        chase_target(map, ms, mpos, ppos) matches Some(t) ==> monster_coord_ok(t),
{
}
} // verus!
