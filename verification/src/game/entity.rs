use vstd::prelude::*;

use super::master_data::{
    AiTypeDef, EquipCategoryDef, EquipmentDef, ItemCategoryDef, ItemDef, ItemEffectDef,
    MonsterStatsDef, PlayerData,
};
use super::types::{Direction, Position};
use crate::text::{decimal, owned, push_decimal, push_text};

verus! {

// --- Items ---

#[derive(Clone, Copy, Debug)]
pub enum ItemEffect {
    Heal(i32),
    HealFull,
    Food(i32),
    BoostAttack(i32),
    RevealMap,
    ConfuseAll { turns: u32 },
    TempBoostAttack { amount: i32, turns: u32 },
    Paralyze,
    Knockback { distance: i32 },
    SwapPosition,
}

/// The effect that a definition's effect becomes.
pub open spec fn effect_of_def(def: ItemEffectDef) -> ItemEffect {
    match def {
        ItemEffectDef::Heal(v) => ItemEffect::Heal(v),
        ItemEffectDef::HealFull => ItemEffect::HealFull,
        ItemEffectDef::Food(v) => ItemEffect::Food(v),
        ItemEffectDef::BoostAttack(v) => ItemEffect::BoostAttack(v),
        ItemEffectDef::RevealMap => ItemEffect::RevealMap,
        ItemEffectDef::ConfuseAll { turns } => ItemEffect::ConfuseAll { turns },
        ItemEffectDef::TempBoostAttack { amount, turns } => ItemEffect::TempBoostAttack {
            amount,
            turns,
        },
        ItemEffectDef::Paralyze => ItemEffect::Paralyze,
        ItemEffectDef::Knockback { distance } => ItemEffect::Knockback { distance },
        ItemEffectDef::SwapPosition => ItemEffect::SwapPosition,
    }
}

impl ItemEffect {
    pub fn from_def(def: &ItemEffectDef) -> (e: Self)
        ensures
            e == effect_of_def(*def),
    {
        match def {
            ItemEffectDef::Heal(v) => ItemEffect::Heal(*v),
            ItemEffectDef::HealFull => ItemEffect::HealFull,
            ItemEffectDef::Food(v) => ItemEffect::Food(*v),
            ItemEffectDef::BoostAttack(v) => ItemEffect::BoostAttack(*v),
            ItemEffectDef::RevealMap => ItemEffect::RevealMap,
            ItemEffectDef::ConfuseAll { turns } => ItemEffect::ConfuseAll { turns: *turns },
            ItemEffectDef::TempBoostAttack { amount, turns } => ItemEffect::TempBoostAttack {
                amount: *amount,
                turns: *turns,
            },
            ItemEffectDef::Paralyze => ItemEffect::Paralyze,
            ItemEffectDef::Knockback { distance } => ItemEffect::Knockback { distance: *distance },
            ItemEffectDef::SwapPosition => ItemEffect::SwapPosition,
        }
    }
}

#[derive(Clone, Copy, Debug)]
pub enum ItemCategory {
    Herb,
    Food,
    Weapon,
    Shield,
    Scroll,
    Staff(i32),  // charges remaining
}

/// The category that a definition's category becomes, given the staff charges.
pub open spec fn category_of_def(def: ItemCategoryDef, charges: Option<i32>) -> ItemCategory {
    match def {
        ItemCategoryDef::Staff => ItemCategory::Staff(
            match charges {
                Some(c) => c,
                None => 0,
            },
        ),
        ItemCategoryDef::Herb => ItemCategory::Herb,
        ItemCategoryDef::Food => ItemCategory::Food,
        ItemCategoryDef::Scroll => ItemCategory::Scroll,
        ItemCategoryDef::Weapon => ItemCategory::Weapon,
        ItemCategoryDef::Shield => ItemCategory::Shield,
    }
}

#[derive(Clone, Debug)]
pub struct Item {
    pub id: String,
    pub name: String,
    pub symbol: char,
    pub category: ItemCategory,
    pub effect: ItemEffect,
    pub equip_data: Option<EquipData>,
}

#[derive(Clone, Copy, Debug)]
pub struct EquipData {
    pub base_value: i32,
    pub enhancement: i32,
}

impl Item {
    pub fn from_def(id: &str, def: &ItemDef, charges: Option<i32>) -> (it: Self)
        ensures
            it.id@ == id@,
            it.name@ == def.name@,
            it.symbol == def.symbol,
            it.category == category_of_def(def.category, charges),
            it.effect == effect_of_def(def.effect),
            it.equip_data.is_none(),
    {
        let category = match (&def.category, charges) {
            (ItemCategoryDef::Staff, Some(c)) => ItemCategory::Staff(c),
            (ItemCategoryDef::Staff, None) => ItemCategory::Staff(0),
            (ItemCategoryDef::Herb, _) => ItemCategory::Herb,
            (ItemCategoryDef::Food, _) => ItemCategory::Food,
            (ItemCategoryDef::Scroll, _) => ItemCategory::Scroll,
            (ItemCategoryDef::Weapon, _) => ItemCategory::Weapon,
            (ItemCategoryDef::Shield, _) => ItemCategory::Shield,
        };
        Item {
            id: owned(id),
            name: def.name.clone(),
            symbol: def.symbol,
            category,
            effect: ItemEffect::from_def(&def.effect),
            equip_data: None,
        }
    }
}

pub struct FloorItem {
    pub item: Item,
    pub pos: Position,
}

// --- Equipment ---

#[derive(Clone, Debug)]
pub struct Equipment {
    pub id: String,
    pub name: String,
    pub symbol: char,
    pub category: EquipCategory,
    pub base_value: i32,
    pub enhancement: i32,
}

#[derive(Clone, Copy, Debug, PartialEq, Eq, Structural)]
pub enum EquipCategory {
    Weapon,
    Shield,
}

/// The name shown for a piece of equipment: its name, followed by `+n` for a positive
/// enhancement `n`.
pub open spec fn spec_display_name(name: Seq<char>, enhancement: i32) -> Seq<char> {
    if enhancement > 0 {
        name + seq!['+'] + decimal(enhancement as int)
    } else {
        name
    }
}

impl Equipment {
    pub open spec fn spec_effective_value(&self) -> int {
        self.base_value + self.enhancement
    }

    pub fn display_name(&self) -> (s: String)
        ensures
            s@ == spec_display_name(self.name@, self.enhancement),
    {
        if self.enhancement > 0 {
            let mut s = self.name.clone();
            push_text(&mut s, "+");
            push_decimal(&mut s, self.enhancement as i64);
            proof {
                reveal_strlit("+");
                assert(s@ =~= spec_display_name(self.name@, self.enhancement));
            }
            s
        } else {
            self.name.clone()
        }
    }

    pub fn effective_value(&self) -> (v: i32)
        requires
            i32::MIN <= self.spec_effective_value() <= i32::MAX,
        ensures
            v == self.spec_effective_value(),
    {
        self.base_value + self.enhancement
    }

    pub fn from_def(id: &str, def: &EquipmentDef, enhancement: i32) -> (e: Self)
        ensures
            e.id@ == id@,
            e.name@ == def.name@,
            e.symbol == def.symbol,
            e.category == match def.category {
                EquipCategoryDef::Weapon => EquipCategory::Weapon,
                EquipCategoryDef::Shield => EquipCategory::Shield,
            },
            e.base_value == def.base_value,
            e.enhancement == enhancement,
    {
        Equipment {
            id: owned(id),
            name: def.name.clone(),
            symbol: def.symbol,
            category: match def.category {
                EquipCategoryDef::Weapon => EquipCategory::Weapon,
                EquipCategoryDef::Shield => EquipCategory::Shield,
            },
            base_value: def.base_value,
            enhancement,
        }
    }
}

pub struct FloorEquipment {
    pub equip: Equipment,
    pub pos: Position,
}

// --- Status Effects ---

#[derive(Clone, Copy, Debug)]
pub struct StatusEffects {
    pub confused: Option<u32>,  // remaining turns
    pub paralyzed: bool,
    pub attack_boost: Option<(i32, u32)>,  // (amount, remaining turns)
}

impl Default for StatusEffects {
    fn default() -> (s: Self)
        ensures
            s.confused.is_none(),
            !s.paralyzed,
            s.attack_boost.is_none(),
    {
        StatusEffects { confused: None, paralyzed: false, attack_boost: None }
    }
}

/// A countdown after one turn: it ends when it had one turn or fewer left.
pub open spec fn tick_turns(t: Option<u32>) -> Option<u32> {
    match t {
        Some(n) => if n <= 1 { None } else { Some((n - 1) as u32) },
        None => None,
    }
}

/// An attack boost after one turn.
pub open spec fn tick_boost(b: Option<(i32, u32)>) -> Option<(i32, u32)> {
    match b {
        Some((a, n)) => if n <= 1 { None } else { Some((a, (n - 1) as u32)) },
        None => None,
    }
}

/// The status effects after one turn has passed.
pub open spec fn spec_tick(s: StatusEffects) -> StatusEffects {
    StatusEffects {
        confused: tick_turns(s.confused),
        paralyzed: s.paralyzed,
        attack_boost: tick_boost(s.attack_boost),
    }
}

impl StatusEffects {
    pub fn none() -> (s: Self)
        ensures
            s.confused.is_none(),
            !s.paralyzed,
            s.attack_boost.is_none(),
    {
        StatusEffects { confused: None, paralyzed: false, attack_boost: None }
    }

    pub fn tick(&mut self)
        ensures
            *final(self) == spec_tick(*old(self)),
    {
        match self.confused {
            Some(t) => {
                if t <= 1 {
                    self.confused = None;
                } else {
                    self.confused = Some(t - 1);
                }
            },
            None => {},
        }
        match self.attack_boost {
            Some((a, t)) => {
                if t <= 1 {
                    self.attack_boost = None;
                } else {
                    self.attack_boost = Some((a, t - 1));
                }
            },
            None => {},
        }
    }
}

// --- Player ---

pub struct Player {
    pub level: i32,
    pub exp: i32,
    pub symbol: char,
    pub hp: i32,
    pub max_hp: i32,
    pub attack: i32,
    pub defense: i32,
    pub pos: Position,
    pub direction: Direction,
    pub inventory: Vec<Item>,
    pub weapon: Option<Equipment>,
    pub shield: Option<Equipment>,
    pub fullness: i32,
    pub max_fullness: i32,
    pub kill_count: u32,
    pub status: StatusEffects,
}

/// What a piece of equipment adds, or 0 when none is worn.
pub open spec fn equip_bonus(e: Option<Equipment>) -> int {
    match e {
        Some(w) => w.spec_effective_value(),
        None => 0,
    }
}

/// The amount of an attack boost, or 0 when there is none.
pub open spec fn boost_amount(b: Option<(i32, u32)>) -> int {
    match b {
        Some((a, _)) => a as int,
        None => 0,
    }
}

impl Player {
    /// Attack with the weapon and any temporary boost.
    pub open spec fn spec_effective_attack(&self) -> int {
        self.attack + equip_bonus(self.weapon) + boost_amount(self.status.attack_boost)
    }

    /// Defense with the shield.
    pub open spec fn spec_effective_defense(&self) -> int {
        self.defense + equip_bonus(self.shield)
    }

    /// Whether the stats that combine into the effective values stay within `i32`.
    pub open spec fn stats_fit(&self) -> bool {
        &&& i32::MIN <= equip_bonus(self.weapon) <= i32::MAX
        &&& i32::MIN <= self.attack + equip_bonus(self.weapon) <= i32::MAX
        &&& i32::MIN <= self.spec_effective_attack() <= i32::MAX
        &&& i32::MIN <= equip_bonus(self.shield) <= i32::MAX
        &&& i32::MIN <= self.spec_effective_defense() <= i32::MAX
    }

    pub fn new(data: &PlayerData) -> (p: Self)
        ensures
            p.level == data.initial_stats.level,
            p.exp == 0,
            p.symbol == data.initial_stats.symbol,
            p.hp == data.initial_stats.hp,
            p.max_hp == data.initial_stats.hp,
            p.attack == data.initial_stats.attack,
            p.defense == data.initial_stats.defense,
            p.pos == (Position { x: 0, y: 0 }),
            p.direction == Direction::Down,
            p.inventory@.len() == 0,
            p.weapon.is_none(),
            p.shield.is_none(),
            p.fullness == data.initial_stats.fullness,
            p.max_fullness == data.initial_stats.max_fullness,
            p.kill_count == 0,
            p.status.confused.is_none(),
            !p.status.paralyzed,
            p.status.attack_boost.is_none(),
    {
        let s = &data.initial_stats;
        Player {
            level: s.level,
            exp: 0,
            symbol: s.symbol,
            hp: s.hp,
            max_hp: s.hp,
            attack: s.attack,
            defense: s.defense,
            pos: Position::zero(),
            direction: Direction::Down,
            inventory: Vec::new(),
            weapon: None,
            shield: None,
            fullness: s.fullness,
            max_fullness: s.max_fullness,
            kill_count: 0,
            status: StatusEffects::none(),
        }
    }

    pub fn effective_attack(&self) -> (a: i32)
        requires
            self.stats_fit(),
        ensures
            a == self.spec_effective_attack(),
    {
        let bonus = match &self.weapon {
            Some(w) => w.effective_value(),
            None => 0,
        };
        let base = self.attack + bonus;
        let boost = match self.status.attack_boost {
            Some((amt, _)) => amt,
            None => 0,
        };
        base + boost
    }

    pub fn effective_defense(&self) -> (d: i32)
        requires
            self.stats_fit(),
        ensures
            d == self.spec_effective_defense(),
    {
        let bonus = match &self.shield {
            Some(s) => s.effective_value(),
            None => 0,
        };
        self.defense + bonus
    }

    pub fn inventory_full(&self, max_inventory: usize) -> (b: bool)
        ensures
            b == (self.inventory@.len() >= max_inventory),
    {
        self.inventory.len() >= max_inventory
    }
}

// --- Monster ---

#[derive(Clone, Copy, Debug)]
pub enum AiType {
    Standard,
    Ranged,
}

pub struct Monster {
    pub name: String,
    pub symbol: char,
    pub hp: i32,
    pub max_hp: i32,
    pub attack: i32,
    pub defense: i32,
    pub exp: i32,
    pub pos: Position,
    pub ai_type: AiType,
    pub status: StatusEffects,
}

impl Monster {
    pub fn from_stats_def(def: &MonsterStatsDef, pos: Position) -> (m: Self)
        ensures
            m.name@ == def.name@,
            m.symbol == def.symbol,
            m.hp == def.hp,
            m.max_hp == def.hp,
            m.attack == def.attack,
            m.defense == def.defense,
            m.exp == def.exp,
            m.pos == pos,
            m.ai_type == match def.ai_type {
                AiTypeDef::Standard => AiType::Standard,
                AiTypeDef::Ranged => AiType::Ranged,
            },
            m.status.confused.is_none(),
            !m.status.paralyzed,
            m.status.attack_boost.is_none(),
    {
        Monster {
            name: def.name.clone(),
            symbol: def.symbol,
            hp: def.hp,
            max_hp: def.hp,
            attack: def.attack,
            defense: def.defense,
            exp: def.exp,
            pos,
            ai_type: match &def.ai_type {
                AiTypeDef::Standard => AiType::Standard,
                AiTypeDef::Ranged => AiType::Ranged,
            },
            status: StatusEffects::none(),
        }
    }
}

} // verus!
