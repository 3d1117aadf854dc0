use vstd::prelude::*;

use super::types::{Direction, Position};

verus! {

/// What the player asks for in one step of the game.
#[derive(Debug, Clone, Copy)]
pub enum GameCommand {
    Move(Direction),
    Turn(Direction),      // face a direction without moving
    UseItem(usize),       // inventory index
    UseStaff(usize),      // inventory index (staff item)
    EquipWeapon(usize),   // inventory index (weapon item)
    EquipShield(usize),   // inventory index (shield item)
    ThrowItem(usize),     // inventory index
    Wait,
    Quit,
    OpenInventory,
    OpenThrowInventory,
}

/// What happened during a turn, in order.
#[derive(Debug, Clone)]
pub enum GameEvent {
    PlayerMoved { from: Position, to: Position },
    PlayerAttacked { target_name: String, damage: i32 },
    MonsterDefeated { name: String, exp: i32 },
    MonsterMoved { id: usize, from: Position, to: Position },
    MonsterAttacked { name: String, damage: i32 },
    PlayerDamaged { amount: i32, remaining_hp: i32 },
    ItemPickedUp { name: String },
    ItemUsed { name: String, effect_desc: String },
    ItemThrown { name: String, result_desc: String },
    EquipmentPickedUp { name: String },
    Equipped { name: String },
    LevelUp { new_level: i32 },
    FloorAdvance { new_floor: u32 },
    PlayerHypnotized { monster_name: String, action_desc: String },
    InventoryFull,
    Starving,
    GameOver,
    GameClear,
    Message(String),
    RequestInventory,
    RequestThrowInventory,
}

/// Why a command was refused.
#[derive(Debug, Clone, PartialEq, Eq, Structural)]
pub enum TurnError {
    InvalidInventoryIndex(usize),
}

} // verus!
