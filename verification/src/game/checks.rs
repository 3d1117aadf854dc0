use vstd::prelude::*;

use super::dungeon::{
    data_ok, distinct_keys, effect_ok, equip_ok, item_ok, level_entry_ok, monster_count_in,
    monster_def_ok, monster_ok, player_ok, stat_ok, GameState, STAT_LIMIT,
};
use super::entity::{effect_of_def, Equipment, Item, ItemCategory, ItemEffect, Monster, Player};
use super::master_data::{
    find_entry, EquipSpawnEntry, EquipmentDef, FoodSpawnItem, ItemDef, ItemEffectDef, LevelEntry, MasterData,
    MonsterCountEntry, MonsterStatsDef,
};
use super::spawning::{
    food_table_index, equip_table_index, food_total, monster_table_index, playable, spawnable,
    spec_monster_list,
};

verus! {

fn stat_fits(v: i32) -> (b: bool)
    ensures
        b == stat_ok(v as int),
{
    -STAT_LIMIT <= v && v <= STAT_LIMIT
}

fn effect_fits(e: &ItemEffect) -> (b: bool)
    ensures
        b == effect_ok(*e),
{
    match e {
        ItemEffect::Heal(v) => stat_fits(*v),
        ItemEffect::Food(v) => stat_fits(*v),
        ItemEffect::BoostAttack(v) => stat_fits(*v),
        ItemEffect::TempBoostAttack { amount, turns } => stat_fits(*amount),
        ItemEffect::Knockback { distance } => stat_fits(*distance),
        _ => true,
    }
}

fn effect_def_fits(e: &ItemEffectDef) -> (b: bool)
    ensures
        b == effect_ok(effect_of_def(*e)),
{
    match e {
        ItemEffectDef::Heal(v) => stat_fits(*v),
        ItemEffectDef::Food(v) => stat_fits(*v),
        ItemEffectDef::BoostAttack(v) => stat_fits(*v),
        ItemEffectDef::TempBoostAttack { amount, turns } => stat_fits(*amount),
        ItemEffectDef::Knockback { distance } => stat_fits(*distance),
        _ => true,
    }
}

fn item_fits(it: &Item) -> (b: bool)
    ensures
        b == item_ok(*it),
{
    let staff = match it.category {
        ItemCategory::Staff(c) => stat_fits(c),
        _ => true,
    };
    let data = match it.equip_data {
        Some(d) => stat_fits(d.base_value) && stat_fits(d.enhancement),
        None => true,
    };
    effect_fits(&it.effect) && staff && data
}

fn equip_fits(e: &Option<Equipment>) -> (b: bool)
    ensures
        b == equip_ok(*e),
{
    match e {
        Some(w) => stat_fits(w.base_value) && stat_fits(w.enhancement),
        None => true,
    }
}

fn items_fit(v: &Vec<Item>) -> (b: bool)
    ensures
        b == forall|i: int| 0 <= i < v@.len() ==> item_ok(#[trigger] v@[i]),
{
    let mut i: usize = 0;
    while i < v.len()
        invariant
            i <= v@.len(),
            forall|k: int| 0 <= k < i ==> item_ok(#[trigger] v@[k]),
        decreases v@.len() - i,
    {
        if !item_fits(&v[i]) {
            return false;
        }
        i = i + 1;
    }
    true
}

fn player_fits(p: &Player) -> (b: bool)
    ensures
        b == player_ok(*p),
{
    let boost = match p.status.attack_boost {
        Some((a, _)) => stat_fits(a),
        None => true,
    };
    stat_fits(p.level) && stat_fits(p.exp) && stat_fits(p.hp) && stat_fits(p.max_hp) && stat_fits(p.attack)
        && stat_fits(p.defense) && stat_fits(p.fullness) && stat_fits(p.max_fullness) && equip_fits(&p.weapon)
        && equip_fits(&p.shield) && boost && p.kill_count < u32::MAX && items_fit(&p.inventory)
}

fn monster_fits(m: &Monster) -> (b: bool)
    ensures
        b == monster_ok(*m),
{
    stat_fits(m.hp) && stat_fits(m.max_hp) && stat_fits(m.attack) && stat_fits(m.defense) && stat_fits(m.exp)
}

fn monster_def_fits(m: &MonsterStatsDef) -> (b: bool)
    ensures
        b == monster_def_ok(*m),
{
    stat_fits(m.hp) && stat_fits(m.attack) && stat_fits(m.defense) && stat_fits(m.exp)
}

fn level_entry_fits(e: &LevelEntry) -> (b: bool)
    ensures
        b == level_entry_ok(*e),
{
    stat_fits(e.level) && stat_fits(e.req_exp) && stat_fits(e.max_hp) && stat_fits(e.attack) && stat_fits(e.defense)
}

fn level_table_fits(table: &Vec<LevelEntry>) -> (b: bool)
    ensures
        b == forall|k: int| 0 <= k < table@.len() ==> level_entry_ok(#[trigger] table@[k]),
{
    let mut i: usize = 0;
    while i < table.len()
        invariant
            i <= table@.len(),
            forall|k: int| 0 <= k < i ==> level_entry_ok(#[trigger] table@[k]),
        decreases table@.len() - i,
    {
        if !level_entry_fits(&table[i]) {
            return false;
        }
        i = i + 1;
    }
    true
}

fn item_defs_fit(items: &Vec<(String, ItemDef)>) -> (b: bool)
    ensures
        b == forall|k: int| 0 <= k < items@.len() ==> effect_ok(effect_of_def((#[trigger] items@[k]).1.effect)),
{
    let mut i: usize = 0;
    while i < items.len()
        invariant
            i <= items@.len(),
            forall|k: int| 0 <= k < i ==> effect_ok(effect_of_def((#[trigger] items@[k]).1.effect)),
        decreases items@.len() - i,
    {
        if !effect_def_fits(&items[i].1.effect) {
            return false;
        }
        i = i + 1;
    }
    true
}

fn equipment_defs_fit(eqs: &Vec<(String, EquipmentDef)>) -> (b: bool)
    ensures
        b == forall|k: int| 0 <= k < eqs@.len() ==> stat_ok((#[trigger] eqs@[k]).1.base_value as int),
{
    let mut i: usize = 0;
    while i < eqs.len()
        invariant
            i <= eqs@.len(),
            forall|k: int| 0 <= k < i ==> stat_ok((#[trigger] eqs@[k]).1.base_value as int),
        decreases eqs@.len() - i,
    {
        if !stat_fits(eqs[i].1.base_value) {
            return false;
        }
        i = i + 1;
    }
    true
}

fn monster_defs_fit(ms: &Vec<(String, MonsterStatsDef)>) -> (b: bool)
    ensures
        b == forall|k: int| 0 <= k < ms@.len() ==> monster_def_ok((#[trigger] ms@[k]).1),
{
    let mut i: usize = 0;
    while i < ms.len()
        invariant
            i <= ms@.len(),
            forall|k: int| 0 <= k < i ==> monster_def_ok((#[trigger] ms@[k]).1),
        decreases ms@.len() - i,
    {
        if !monster_def_fits(&ms[i].1) {
            return false;
        }
        i = i + 1;
    }
    true
}

fn counts_fit(counts: &Vec<MonsterCountEntry>) -> (b: bool)
    ensures
        b == forall|k: int| 0 <= k < counts@.len() ==> (#[trigger] counts@[k]).count < STAT_LIMIT,
{
    let mut i: usize = 0;
    while i < counts.len()
        invariant
            i <= counts@.len(),
            forall|k: int| 0 <= k < i ==> (#[trigger] counts@[k]).count < STAT_LIMIT,
        decreases counts@.len() - i,
    {
        if counts[i].count >= 100_000_000u32 {
            return false;
        }
        i = i + 1;
    }
    true
}

fn enhancements_fit(es: &Vec<EquipSpawnEntry>) -> (b: bool)
    ensures
        b == forall|k: int| 0 <= k < es@.len() ==> stat_ok((#[trigger] es@[k]).max_enhancement as int),
{
    let mut i: usize = 0;
    while i < es.len()
        invariant
            i <= es@.len(),
            forall|k: int| 0 <= k < i ==> stat_ok((#[trigger] es@[k]).max_enhancement as int),
        decreases es@.len() - i,
    {
        if !stat_fits(es[i].max_enhancement) {
            return false;
        }
        i = i + 1;
    }
    true
}

/// Whether every number of the master data lies within the stat bounds.
pub fn data_within_limits(d: &MasterData) -> (b: bool)
    ensures
        b == data_ok(*d),
{
    let bal = &d.balance;
    let st = &d.player.initial_stats;
    let plain = 0 <= bal.min_damage && bal.min_damage <= STAT_LIMIT && stat_fits(bal.thrown_non_weapon_damage)
        && stat_fits(bal.fullness_decrease_per_turn) && stat_fits(bal.starvation_damage) && stat_fits(
        bal.detection_range,
    ) && stat_fits(bal.staff_range) && stat_fits(bal.throw_range) && stat_fits(st.level) && stat_fits(st.hp)
        && stat_fits(st.attack) && stat_fits(st.defense) && stat_fits(st.fullness) && stat_fits(st.max_fullness)
        && d.map.max_floor <= 100_000_000u32 && stat_fits(d.floors.staff_spawns.min_charges) && stat_fits(
        d.floors.staff_spawns.max_charges,
    );
    plain && level_table_fits(&d.player.level_table) && item_defs_fit(&d.items) && equipment_defs_fit(
        &d.equipment,
    ) && monster_defs_fit(&d.monsters) && counts_fit(&d.floors.monster_counts) && enhancements_fit(
        &d.floors.equipment_spawns,
    ) && keys_distinct(&d.items) && keys_distinct(&d.equipment) && keys_distinct(&d.monsters)
}

/// Whether no two entries of the table share an id.
fn keys_distinct<T>(t: &Vec<(String, T)>) -> (b: bool)
    ensures
        b == distinct_keys(t@),
{
    let mut i: usize = 0;
    while i < t.len()
        invariant
            i <= t@.len(),
            forall|a: int, c: int| 0 <= a < c < i ==> (#[trigger] t@[a]).0@ != (#[trigger] t@[c]).0@,
        decreases t@.len() - i,
    {
        match find_entry(t, &t[i].0) {
            Some(k) => {
                if k != i {
                    proof {
                        assert(t@[k as int].0@ == t@[i as int].0@);
                        assert(k < i);
                    }
                    return false;
                }
            },
            None => {
                proof {
                    assert(t@[i as int].0@ != t@[i as int].0@);
                }
            },
        }
        i = i + 1;
    }
    true
}

/// Whether the weights of a food list add up to at most `usize::MAX`.
fn food_total_fits(items: &Vec<FoodSpawnItem>) -> (b: bool)
    ensures
        b == (food_total(items@) <= usize::MAX),
{
    let mut total: usize = 0;
    let mut i: usize = 0;
    while i < items.len()
        invariant
            i <= items@.len(),
            total == food_total(items@.take(i as int)),
        decreases items@.len() - i,
    {
        proof {
            super::spawning::lemma_food_total_step(items@, i as int);
        }
        match total.checked_add(items[i].weight as usize) {
            Some(t) => {
                total = t;
            },
            None => {
                proof {
                    super::spawning::lemma_food_total_prefix(items@, i + 1);
                }
                return false;
            },
        }
        i = i + 1;
    }
    assert(items@.take(items@.len() as int) =~= items@);
    true
}

/// Whether the master data can populate `floor` without a failed draw.
pub fn can_spawn(d: &MasterData, floor: u32) -> (b: bool)
    ensures
        b == spawnable(*d, floor),
{
    let count = monster_count_in(d, floor);
    let list_len = match monster_table_index(d, floor) {
        Some(i) => d.floors.monster_table[i].monsters.len(),
        None => {
            let t = &d.floors.monster_table;
            if t.len() > 0 {
                t[t.len() - 1].monsters.len()
            } else {
                0
            }
        },
    };
    assert(list_len == spec_monster_list(*d, floor).len());
    if count > 0 && list_len == 0 {
        return false;
    }
    match food_table_index(d, floor) {
        Some(i) => {
            let e = &d.floors.food_spawns[i];
            if e.count > 0 && (e.items.len() == 0 || !food_total_fits(&e.items)) {
                return false;
            }
        },
        None => {},
    }
    let sc = &d.floors.scroll_spawns;
    if sc.min > sc.max || (sc.max - sc.min) as usize == usize::MAX || (sc.max > 0 && sc.pool.len() == 0) {
        return false;
    }
    let st = &d.floors.staff_spawns;
    if st.chance > 1_000_000 || (st.chance > 0 && (st.min_charges > st.max_charges || st.pool.len() == 0)) {
        return false;
    }
    match equip_table_index(d, floor) {
        Some(i) => {
            let e = &d.floors.equipment_spawns[i];
            if e.chance > 1_000_000 || (e.chance > 0 && (e.max_enhancement < 0 || e.weapons.len() == 0
                || e.shields.len() == 0)) {
                return false;
            }
        },
        None => {},
    }
    true
}

#[verifier::opaque]
spec fn floor_ready(d: MasterData, f: u32) -> bool {
    spawnable(d, f)
}

proof fn lemma_floor_ready(d: MasterData, f: u32)
    ensures
        floor_ready(d, f) == spawnable(d, f),
{
    reveal(floor_ready);
}

fn ready(d: &MasterData, f: u32) -> (b: bool)
    ensures
        b == floor_ready(*d, f),
{
    let b = can_spawn(d, f);
    proof {
        lemma_floor_ready(*d, f);
    }
    b
}

/// Whether the master data can populate every floor of the game.
pub fn can_play(d: &MasterData) -> (b: bool)
    ensures
        b == playable(*d),
{
    let ok1 = ready(d, 1);
    if !ok1 {
        proof {
            lemma_floor_ready(*d, 1);
        }
        return false;
    }
    let max_floor = d.map.max_floor;
    let mut f: u32 = 2;
    while f <= max_floor
        invariant
            max_floor == d.map.max_floor,
            2 <= f,
            floor_ready(*d, 1),
            forall|g: u32| 1 <= g < f ==> #[trigger] floor_ready(*d, g),
        decreases max_floor + 1 - f,
    {
        let ok = ready(d, f);
        if !ok {
            proof {
                lemma_floor_ready(*d, f);
            }
            return false;
        }
        if f == u32::MAX {
            proof {
                assert forall|g: u32| (g == 1 || 1 <= g <= d.map.max_floor) implies #[trigger] spawnable(*d, g) by {
                    lemma_floor_ready(*d, g);
                }
            }
            return true;
        }
        f = f + 1;
    }
    proof {
        assert forall|g: u32| (g == 1 || 1 <= g <= d.map.max_floor) implies #[trigger] spawnable(*d, g) by {
            lemma_floor_ready(*d, g);
        }
    }
    true
}

impl GameState {
    /// Whether every number of the state lies within the bounds that a turn needs.
    pub fn within_limits(&self) -> (b: bool)
        ensures
            b == self.limits(),
    {
        if !player_fits(&self.player) {
            return false;
        }
        let mut i: usize = 0;
        while i < self.monsters.len()
            invariant
                i <= self.monsters@.len(),
                forall|k: int| 0 <= k < i ==> monster_ok(#[trigger] self.monsters@[k]),
            decreases self.monsters@.len() - i,
        {
            if !monster_fits(&self.monsters[i]) {
                return false;
            }
            i = i + 1;
        }
        let mut i: usize = 0;
        while i < self.floor_items.len()
            invariant
                i <= self.floor_items@.len(),
                forall|k: int| 0 <= k < i ==> item_ok(#[trigger] self.floor_items@[k].item),
            decreases self.floor_items@.len() - i,
        {
            if !item_fits(&self.floor_items[i].item) {
                return false;
            }
            i = i + 1;
        }
        let mut i: usize = 0;
        while i < self.floor_equips.len()
            invariant
                i <= self.floor_equips@.len(),
                forall|k: int| 0 <= k < i ==> equip_ok(Some(#[trigger] self.floor_equips@[k].equip)),
            decreases self.floor_equips@.len() - i,
        {
            let e = &self.floor_equips[i].equip;
            if !(stat_fits(e.base_value) && stat_fits(e.enhancement)) {
                return false;
            }
            i = i + 1;
        }
        data_within_limits(&self.data) && self.monsters.len() < STAT_LIMIT as usize && self.turn < u32::MAX
            && self.floor < u32::MAX
    }
}

} // verus!
