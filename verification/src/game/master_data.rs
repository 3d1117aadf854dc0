use vstd::prelude::*;

verus! {

// --- Item Definitions ---

/// The effect of an item as written in the master data.
#[derive(Clone, Copy, Debug)]
pub enum ItemEffectDef {
    Heal(i32),
    HealFull,
    Food(i32),
    BoostAttack(i32),
    RevealMap,
    ConfuseAll { turns: u32 },
    TempBoostAttack { amount: i32, turns: u32 },
    Paralyze,
    Knockback { distance: i32 },
    SwapPosition,
}

#[derive(Clone, Copy, Debug)]
pub enum ItemCategoryDef {
    Herb,
    Food,
    Scroll,
    Staff,
    Weapon,
    Shield,
}

#[derive(Clone, Debug)]
pub struct ItemDef {
    pub name: String,
    pub symbol: char,
    pub category: ItemCategoryDef,
    pub effect: ItemEffectDef,
}

// --- Equipment Definitions ---

#[derive(Clone, Copy, Debug)]
pub enum EquipCategoryDef {
    Weapon,
    Shield,
}

#[derive(Clone, Debug)]
pub struct EquipmentDef {
    pub name: String,
    pub symbol: char,
    pub category: EquipCategoryDef,
    pub base_value: i32,
}

// --- Monster Definitions ---

#[derive(Clone, Copy, Debug)]
pub enum AiTypeDef {
    Standard,
    Ranged,
}

#[derive(Clone, Debug)]
pub struct MonsterStatsDef {
    pub name: String,
    pub symbol: char,
    pub hp: i32,
    pub attack: i32,
    pub defense: i32,
    pub exp: i32,
    pub ai_type: AiTypeDef,
}

// --- Floor Spawn Tables ---

/// An inclusive range of floors, `first..=last`.
#[derive(Clone, Copy, Debug)]
pub struct FloorRange(pub u32, pub u32);

impl FloorRange {
    pub open spec fn spec_contains(self, floor: u32) -> bool {
        self.0 <= floor <= self.1
    }

    pub fn contains(&self, floor: u32) -> (b: bool)
        ensures
            b == self.spec_contains(floor),
    {
        floor >= self.0 && floor <= self.1
    }
}

#[derive(Clone, Debug)]
pub struct MonsterTableEntry {
    pub floors: FloorRange,
    pub monsters: Vec<String>,
}

#[derive(Clone, Copy, Debug)]
pub struct MonsterCountEntry {
    pub floors: FloorRange,
    pub count: u32,
}

#[derive(Clone, Copy, Debug)]
pub struct HerbSpawnEntry {
    pub floors: FloorRange,
    pub count: u32,
}

#[derive(Clone, Debug)]
pub struct FoodSpawnEntry {
    pub floors: FloorRange,
    pub count: u32,
    pub items: Vec<FoodSpawnItem>,
}

/// A food item and its relative weight in the draw (in thousandths).
#[derive(Clone, Debug)]
pub struct FoodSpawnItem {
    pub id: String,
    pub weight: u32,
}

#[derive(Clone, Debug)]
pub struct ScrollSpawnDef {
    pub min: u32,
    pub max: u32,
    pub pool: Vec<String>,
}

/// The one-per-floor staff spawn; `chance` is a probability in millionths.
#[derive(Clone, Debug)]
pub struct StaffSpawnDef {
    pub chance: u32,
    pub min_charges: i32,
    pub max_charges: i32,
    pub pool: Vec<String>,
}

/// An equipment spawn rule; `chance` is a probability in millionths.
#[derive(Clone, Debug)]
pub struct EquipSpawnEntry {
    pub floors: FloorRange,
    pub chance: u32,
    pub weapons: Vec<String>,
    pub shields: Vec<String>,
    pub max_enhancement: i32,
}

#[derive(Clone, Debug)]
pub struct FloorData {
    pub monster_table: Vec<MonsterTableEntry>,
    pub monster_counts: Vec<MonsterCountEntry>,
    pub herb_spawns: Vec<HerbSpawnEntry>,
    pub food_spawns: Vec<FoodSpawnEntry>,
    pub scroll_spawns: ScrollSpawnDef,
    pub staff_spawns: StaffSpawnDef,
    pub equipment_spawns: Vec<EquipSpawnEntry>,
}

// --- Player ---

#[derive(Clone, Copy, Debug)]
pub struct PlayerInitialStats {
    pub level: i32,
    pub hp: i32,
    pub attack: i32,
    pub defense: i32,
    pub fullness: i32,
    pub max_fullness: i32,
    pub symbol: char,
}

#[derive(Clone, Copy, Debug)]
pub struct LevelEntry {
    pub level: i32,
    pub req_exp: i32,
    pub max_hp: i32,
    pub attack: i32,
    pub defense: i32,
}

#[derive(Clone, Debug)]
pub struct PlayerData {
    pub initial_stats: PlayerInitialStats,
    pub max_inventory: usize,
    pub level_table: Vec<LevelEntry>,
}

// --- Balance ---

#[derive(Clone, Copy, Debug)]
pub struct BalanceData {
    pub min_damage: i32,
    pub thrown_non_weapon_damage: i32,
    pub fullness_decrease_per_turn: i32,
    pub starvation_damage: i32,
    pub detection_range: i32,
    pub staff_range: i32,
    pub throw_range: i32,
}

// --- Map ---

#[derive(Clone, Copy, Debug)]
pub struct MapData {
    pub width: usize,
    pub height: usize,
    pub min_room_size: usize,
    pub min_aisle_size: usize,
    pub cut_trial: usize,
    pub max_random_aisles: usize,
    pub max_floor: u32,
}

// --- Top-level container ---

/// The master data. Each table maps an id to its definition; an id is looked up by its
/// first entry.
pub struct MasterData {
    pub items: Vec<(String, ItemDef)>,
    pub equipment: Vec<(String, EquipmentDef)>,
    pub monsters: Vec<(String, MonsterStatsDef)>,
    pub floors: FloorData,
    pub player: PlayerData,
    pub balance: BalanceData,
    pub map: MapData,
}

/// The index of the first entry whose id is `id`, if any.
pub open spec fn spec_find<T>(entries: Seq<(String, T)>, id: Seq<char>) -> Option<int> {
    if exists|i: int| 0 <= i < entries.len() && (#[trigger] entries[i]).0@ == id {
        Some(choose|i: int|
            0 <= i < entries.len() && (#[trigger] entries[i]).0@ == id && forall|j: int|
                0 <= j < i ==> (#[trigger] entries[j]).0@ != id)
    } else {
        None
    }
}

/// Looks `id` up in a table of `(id, definition)` entries.
pub fn find_entry<T>(entries: &Vec<(String, T)>, id: &String) -> (r: Option<usize>)
    ensures
        match r {
            Some(i) => i < entries@.len() && entries@[i as int].0@ == id@ && forall|j: int|
                0 <= j < i ==> (#[trigger] entries@[j]).0@ != id@,
            None => forall|j: int| 0 <= j < entries@.len() ==> (#[trigger] entries@[j]).0@ != id@,
        },
        r.is_some() ==> spec_find(entries@, id@) == Some(r.unwrap() as int),
        r.is_none() ==> spec_find(entries@, id@).is_none(),
{
    let mut i: usize = 0;
    while i < entries.len()
        invariant
            i <= entries@.len(),
            forall|j: int| 0 <= j < i ==> (#[trigger] entries@[j]).0@ != id@,
        decreases entries@.len() - i,
    {
        if entries[i].0 == *id {
            proof {
                let w = choose|k: int|
                    0 <= k < entries@.len() && (#[trigger] entries@[k]).0@ == id@ && forall|j: int|
                        0 <= j < k ==> (#[trigger] entries@[j]).0@ != id@;
                assert(0 <= i < entries@.len() && entries@[i as int].0@ == id@ && forall|j: int|
                    0 <= j < i ==> (#[trigger] entries@[j]).0@ != id@);
                if w < i {
                } else if w > i {
                    assert(entries@[i as int].0@ != id@);
                }
            }
            return Some(i);
        }
        i = i + 1;
    }
    None
}

} // verus!
