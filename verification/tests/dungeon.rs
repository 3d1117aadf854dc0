use std::sync::Arc;

use ayz::game::dungeon::{equipment_to_item, GameState};
use ayz::game::entity::{EquipData, Equipment, FloorItem, Item, ItemCategory, ItemEffect, Monster, Player};
use ayz::game::master_data::{
    AiTypeDef, BalanceData, EquipCategoryDef, EquipSpawnEntry, EquipmentDef, FloorData, FloorRange,
    FoodSpawnEntry, FoodSpawnItem, HerbSpawnEntry, ItemCategoryDef, ItemDef, ItemEffectDef, LevelEntry,
    MapData, MasterData, MonsterCountEntry, MonsterStatsDef, MonsterTableEntry, PlayerData,
    PlayerInitialStats, ScrollSpawnDef, StaffSpawnDef,
};
use ayz::game::turn::{GameCommand, GameEvent, TurnError};
use ayz::game::types::{Direction, Position};
use ayz::game::visibility::Visibility;
use ayz::map::cell::{GameMap, MapCell, Terrain};
use ayz::ui::screen::screen_glyph;

fn make_test_master_data() -> Arc<MasterData> {
    let mut items: Vec<(String, ItemDef)> = Vec::new();
    items.push((
        "herb".into(),
        ItemDef {
            name: "回復草".into(),
            symbol: '!',
            category: ItemCategoryDef::Herb,
            effect: ItemEffectDef::Heal(25),
        },
    ));
    items.push((
        "full_heal_herb".into(),
        ItemDef {
            name: "万能草".into(),
            symbol: '!',
            category: ItemCategoryDef::Herb,
            effect: ItemEffectDef::HealFull,
        },
    ));
    items.push((
        "power_herb".into(),
        ItemDef {
            name: "力の草".into(),
            symbol: '!',
            category: ItemCategoryDef::Herb,
            effect: ItemEffectDef::BoostAttack(1),
        },
    ));
    items.push((
        "ration".into(),
        ItemDef {
            name: "携帯食".into(),
            symbol: '%',
            category: ItemCategoryDef::Food,
            effect: ItemEffectDef::Food(500),
        },
    ));
    items.push((
        "big_ration".into(),
        ItemDef {
            name: "保存食".into(),
            symbol: '%',
            category: ItemCategoryDef::Food,
            effect: ItemEffectDef::Food(1000),
        },
    ));
    items.push((
        "light_scroll".into(),
        ItemDef {
            name: "あかりの巻物".into(),
            symbol: '?',
            category: ItemCategoryDef::Scroll,
            effect: ItemEffectDef::RevealMap,
        },
    ));
    items.push((
        "confusion_scroll".into(),
        ItemDef {
            name: "混乱の巻物".into(),
            symbol: '?',
            category: ItemCategoryDef::Scroll,
            effect: ItemEffectDef::ConfuseAll { turns: 10 },
        },
    ));
    items.push((
        "power_scroll".into(),
        ItemDef {
            name: "パワーアップの巻物".into(),
            symbol: '?',
            category: ItemCategoryDef::Scroll,
            effect: ItemEffectDef::TempBoostAttack {
                amount: 5,
                turns: 20,
            },
        },
    ));
    items.push((
        "paralysis_staff".into(),
        ItemDef {
            name: "かなしばりの杖".into(),
            symbol: '/',
            category: ItemCategoryDef::Staff,
            effect: ItemEffectDef::Paralyze,
        },
    ));
    items.push((
        "knockback_staff".into(),
        ItemDef {
            name: "ふきとばしの杖".into(),
            symbol: '/',
            category: ItemCategoryDef::Staff,
            effect: ItemEffectDef::Knockback { distance: 5 },
        },
    ));
    items.push((
        "swap_staff".into(),
        ItemDef {
            name: "場所がえの杖".into(),
            symbol: '/',
            category: ItemCategoryDef::Staff,
            effect: ItemEffectDef::SwapPosition,
        },
    ));

    let mut equipment: Vec<(String, EquipmentDef)> = Vec::new();
    equipment.push((
        "wooden_sword".into(),
        EquipmentDef {
            name: "木の剣".into(),
            symbol: ')',
            category: EquipCategoryDef::Weapon,
            base_value: 3,
        },
    ));
    equipment.push((
        "iron_sword".into(),
        EquipmentDef {
            name: "鉄の剣".into(),
            symbol: ')',
            category: EquipCategoryDef::Weapon,
            base_value: 6,
        },
    ));
    equipment.push((
        "steel_sword".into(),
        EquipmentDef {
            name: "鋼の剣".into(),
            symbol: ')',
            category: EquipCategoryDef::Weapon,
            base_value: 10,
        },
    ));
    equipment.push((
        "wooden_shield".into(),
        EquipmentDef {
            name: "木の盾".into(),
            symbol: '[',
            category: EquipCategoryDef::Shield,
            base_value: 3,
        },
    ));
    equipment.push((
        "iron_shield".into(),
        EquipmentDef {
            name: "鉄の盾".into(),
            symbol: '[',
            category: EquipCategoryDef::Shield,
            base_value: 5,
        },
    ));
    equipment.push((
        "steel_shield".into(),
        EquipmentDef {
            name: "鋼の盾".into(),
            symbol: '[',
            category: EquipCategoryDef::Shield,
            base_value: 9,
        },
    ));

    let mut monsters: Vec<(String, MonsterStatsDef)> = Vec::new();
    monsters.push((
        "slime".into(),
        MonsterStatsDef {
            name: "スライム".into(),
            symbol: 's',
            hp: 5,
            attack: 2,
            defense: 3,
            exp: 4,
            ai_type: AiTypeDef::Standard,
        },
    ));
    monsters.push((
        "goblin".into(),
        MonsterStatsDef {
            name: "ゴブリン".into(),
            symbol: 'g',
            hp: 12,
            attack: 5,
            defense: 4,
            exp: 8,
            ai_type: AiTypeDef::Standard,
        },
    ));
    monsters.push((
        "bat".into(),
        MonsterStatsDef {
            name: "コウモリ".into(),
            symbol: 'b',
            hp: 8,
            attack: 4,
            defense: 5,
            exp: 10,
            ai_type: AiTypeDef::Standard,
        },
    ));
    monsters.push((
        "golem".into(),
        MonsterStatsDef {
            name: "ゴーレム".into(),
            symbol: 'G',
            hp: 20,
            attack: 8,
            defense: 6,
            exp: 15,
            ai_type: AiTypeDef::Standard,
        },
    ));
    monsters.push((
        "specter".into(),
        MonsterStatsDef {
            name: "スペクター".into(),
            symbol: 'S',
            hp: 22,
            attack: 11,
            defense: 8,
            exp: 18,
            ai_type: AiTypeDef::Standard,
        },
    ));
    monsters.push((
        "drake".into(),
        MonsterStatsDef {
            name: "ドレイク".into(),
            symbol: 'D',
            hp: 45,
            attack: 20,
            defense: 15,
            exp: 50,
            ai_type: AiTypeDef::Standard,
        },
    ));
    monsters.push((
        "imp".into(),
        MonsterStatsDef {
            name: "インプ".into(),
            symbol: 'i',
            hp: 18,
            attack: 10,
            defense: 7,
            exp: 20,
            ai_type: AiTypeDef::Ranged,
        },
    ));
    monsters.push((
        "guardian".into(),
        MonsterStatsDef {
            name: "ガーディアン".into(),
            symbol: 'W',
            hp: 60,
            attack: 25,
            defense: 30,
            exp: 100,
            ai_type: AiTypeDef::Standard,
        },
    ));

    let floors = FloorData {
        monster_table: vec![
            MonsterTableEntry {
                floors: FloorRange(1, 2),
                monsters: vec!["slime".into(), "goblin".into()],
            },
            MonsterTableEntry {
                floors: FloorRange(3, 3),
                monsters: vec!["slime".into(), "goblin".into(), "bat".into()],
            },
            MonsterTableEntry {
                floors: FloorRange(4, 5),
                monsters: vec!["goblin".into(), "bat".into(), "golem".into()],
            },
            MonsterTableEntry {
                floors: FloorRange(6, 7),
                monsters: vec!["specter".into(), "golem".into(), "imp".into()],
            },
            MonsterTableEntry {
                floors: FloorRange(8, 9),
                monsters: vec!["specter".into(), "drake".into(), "imp".into()],
            },
            MonsterTableEntry {
                floors: FloorRange(10, 999),
                monsters: vec!["drake".into(), "imp".into(), "guardian".into()],
            },
        ],
        monster_counts: vec![
            MonsterCountEntry {
                floors: FloorRange(1, 3),
                count: 8,
            },
            MonsterCountEntry {
                floors: FloorRange(4, 6),
                count: 10,
            },
            MonsterCountEntry {
                floors: FloorRange(7, 9),
                count: 12,
            },
            MonsterCountEntry {
                floors: FloorRange(10, 999),
                count: 15,
            },
        ],
        herb_spawns: vec![HerbSpawnEntry {
            floors: FloorRange(1, 999),
            count: 3,
        }],
        food_spawns: vec![
            FoodSpawnEntry {
                floors: FloorRange(1, 3),
                count: 2,
                items: vec![
                    FoodSpawnItem {
                        id: "big_ration".into(),
                        weight: 300,
                    },
                    FoodSpawnItem {
                        id: "ration".into(),
                        weight: 700,
                    },
                ],
            },
            FoodSpawnEntry {
                floors: FloorRange(4, 999),
                count: 1,
                items: vec![
                    FoodSpawnItem {
                        id: "big_ration".into(),
                        weight: 300,
                    },
                    FoodSpawnItem {
                        id: "ration".into(),
                        weight: 700,
                    },
                ],
            },
        ],
        scroll_spawns: ScrollSpawnDef {
            min: 1,
            max: 2,
            pool: vec![
                "light_scroll".into(),
                "confusion_scroll".into(),
                "power_scroll".into(),
            ],
        },
        staff_spawns: StaffSpawnDef {
            chance: 500_000,
            min_charges: 3,
            max_charges: 6,
            pool: vec![
                "paralysis_staff".into(),
                "knockback_staff".into(),
                "swap_staff".into(),
            ],
        },
        equipment_spawns: vec![
            EquipSpawnEntry {
                floors: FloorRange(1, 3),
                chance: 500_000,
                weapons: vec!["wooden_sword".into()],
                shields: vec!["wooden_shield".into()],
                max_enhancement: 3,
            },
            EquipSpawnEntry {
                floors: FloorRange(4, 6),
                chance: 500_000,
                weapons: vec!["iron_sword".into()],
                shields: vec!["iron_shield".into()],
                max_enhancement: 3,
            },
            EquipSpawnEntry {
                floors: FloorRange(7, 999),
                chance: 500_000,
                weapons: vec!["steel_sword".into()],
                shields: vec!["steel_shield".into()],
                max_enhancement: 3,
            },
        ],
    };

    let player = PlayerData {
        initial_stats: PlayerInitialStats {
            level: 1,
            hp: 30,
            attack: 8,
            defense: 5,
            fullness: 1000,
            max_fullness: 1000,
            symbol: '@',
        },
        max_inventory: 20,
        level_table: vec![
            LevelEntry {
                level: 1,
                req_exp: 0,
                max_hp: 30,
                attack: 8,
                defense: 5,
            },
            LevelEntry {
                level: 2,
                req_exp: 30,
                max_hp: 35,
                attack: 10,
                defense: 6,
            },
            LevelEntry {
                level: 3,
                req_exp: 70,
                max_hp: 40,
                attack: 12,
                defense: 7,
            },
            LevelEntry {
                level: 4,
                req_exp: 120,
                max_hp: 45,
                attack: 14,
                defense: 8,
            },
            LevelEntry {
                level: 5,
                req_exp: 200,
                max_hp: 50,
                attack: 16,
                defense: 9,
            },
        ],
    };

    let balance = BalanceData {
        min_damage: 1,
        thrown_non_weapon_damage: 2,
        fullness_decrease_per_turn: 1,
        starvation_damage: 1,
        detection_range: 5,
        staff_range: 20,
        throw_range: 10,
    };

    let map = MapData {
        width: 100,
        height: 50,
        min_room_size: 3,
        min_aisle_size: 2,
        cut_trial: 9,
        max_random_aisles: 6,
        max_floor: 10,
    };

    Arc::new(MasterData {
        items,
        equipment,
        monsters,
        floors,
        player,
        balance,
        map,
    })
}


fn def_of<'a, T>(table: &'a [(String, T)], id: &str) -> &'a T {
    &table.iter().find(|(k, _)| k == id).unwrap().1
}

fn make_test_item(data: &MasterData, id: &str) -> Item {
    let def = def_of(&data.items, id);
    Item::from_def(id, def, None)
}

fn make_test_item_with_charges(data: &MasterData, id: &str, charges: i32) -> Item {
    let def = def_of(&data.items, id);
    Item::from_def(id, def, Some(charges))
}

fn make_test_equip(data: &MasterData, id: &str, enhancement: i32) -> Equipment {
    let def = def_of(&data.equipment, id);
    Equipment::from_def(id, def, enhancement)
}

fn make_test_monster(data: &MasterData, id: &str, pos: Position) -> Monster {
    let def = def_of(&data.monsters, id);
    Monster::from_stats_def(def, pos)
}

fn make_test_state() -> GameState {
    let data = make_test_master_data();
    let mut map = GameMap::new(10, 10, Position::new(8, 8));
    for y in 1..=8 {
        for x in 1..=8 {
            map.set(x, y, MapCell { terrain: Terrain::Floor { room_id: 1 } });
        }
    }
    map.set(8, 8, MapCell { terrain: Terrain::Exit });

    let mut player = Player::new(&data.player);
    player.pos = Position::new(2, 2);

    let mut state = GameState {
        player,
        monsters: Vec::new(),
        floor_items: Vec::new(),
        floor_equips: Vec::new(),
        map,
        visibility: Visibility::new(),
        floor: 1,
        turn: 0,
        data,
    };
    state.visibility.update(&state.player.pos, &state.map);
    state
}

// --- Movement ---

#[test]
fn move_to_walkable_tile() {
    let mut state = make_test_state();
    let events = state
        .process_turn(GameCommand::Move(Direction::Right))
        .unwrap();
    assert_eq!(state.player.pos, Position::new(3, 2));
    assert!(events
        .iter()
        .any(|e| matches!(e, GameEvent::PlayerMoved { .. })));
}

#[test]
fn move_into_wall_stays() {
    let mut state = make_test_state();
    state.player.pos = Position::new(1, 1);
    state
        .process_turn(GameCommand::Move(Direction::Left))
        .unwrap();
    assert_eq!(state.player.pos, Position::new(1, 1));
}

#[test]
fn move_onto_exit_advances_floor() {
    let mut state = make_test_state();
    state.player.pos = Position::new(7, 8);
    let events = state
        .process_turn(GameCommand::Move(Direction::Right))
        .unwrap();
    assert_eq!(state.floor, 2);
    assert!(events
        .iter()
        .any(|e| matches!(e, GameEvent::FloorAdvance { .. })));
}

#[test]
fn move_onto_exit_floor_10_game_clear() {
    let mut state = make_test_state();
    state.floor = 10;
    state.player.pos = Position::new(7, 8);
    let events = state
        .process_turn(GameCommand::Move(Direction::Right))
        .unwrap();
    assert!(events.iter().any(|e| matches!(e, GameEvent::GameClear)));
}

// --- Combat ---

#[test]
fn attack_monster_deals_damage() {
    let mut state = make_test_state();
    state
        .monsters
        .push(make_test_monster(&state.data, "slime", Position::new(3, 2)));

    let events = state
        .process_turn(GameCommand::Move(Direction::Right))
        .unwrap();
    assert!(events
        .iter()
        .any(|e| matches!(e, GameEvent::PlayerAttacked { damage: 5, .. })));
    assert!(events
        .iter()
        .any(|e| matches!(e, GameEvent::MonsterDefeated { .. })));
    assert!(state.monsters.is_empty());
}

#[test]
fn attack_monster_gains_exp() {
    let mut state = make_test_state();
    state
        .monsters
        .push(make_test_monster(&state.data, "slime", Position::new(3, 2)));
    state
        .process_turn(GameCommand::Move(Direction::Right))
        .unwrap();
    assert_eq!(state.player.exp, 4);
}

#[test]
fn attack_releases_paralysis() {
    let mut state = make_test_state();
    let mut monster = make_test_monster(&state.data, "golem", Position::new(3, 2));
    monster.status.paralyzed = true;
    state.monsters.push(monster);

    let events = state
        .process_turn(GameCommand::Move(Direction::Right))
        .unwrap();
    assert!(!state.monsters[0].status.paralyzed);
    assert!(events
        .iter()
        .any(|e| matches!(e, GameEvent::Message(m) if m.contains("金縛り"))));
}

// --- Item pickup ---

#[test]
fn item_pickup_on_move() {
    let mut state = make_test_state();
    state.floor_items.push(FloorItem {
        item: make_test_item(&state.data, "herb"),
        pos: Position::new(3, 2),
    });
    let events = state
        .process_turn(GameCommand::Move(Direction::Right))
        .unwrap();
    assert!(events
        .iter()
        .any(|e| matches!(e, GameEvent::ItemPickedUp { .. })));
    assert_eq!(state.player.inventory.len(), 1);
    assert!(state.floor_items.is_empty());
}

#[test]
fn item_pickup_inventory_full() {
    let mut state = make_test_state();
    let max_inv = state.data.player.max_inventory;
    for _ in 0..max_inv {
        state
            .player
            .inventory
            .push(make_test_item(&state.data, "herb"));
    }
    state.floor_items.push(FloorItem {
        item: make_test_item(&state.data, "herb"),
        pos: Position::new(3, 2),
    });
    let events = state
        .process_turn(GameCommand::Move(Direction::Right))
        .unwrap();
    assert!(events.iter().any(|e| matches!(e, GameEvent::InventoryFull)));
    assert_eq!(state.floor_items.len(), 1);
}

// --- Item usage ---

#[test]
fn use_herb_heals() {
    let mut state = make_test_state();
    state.player.hp = 10;
    state
        .player
        .inventory
        .push(make_test_item(&state.data, "herb"));
    let events = state.process_turn(GameCommand::UseItem(0)).unwrap();
    assert_eq!(state.player.hp, 30);
    assert!(events
        .iter()
        .any(|e| matches!(e, GameEvent::ItemUsed { .. })));
    assert!(state.player.inventory.is_empty());
}

#[test]
fn use_herb_at_max_hp_boosts_max() {
    let mut state = make_test_state();
    state
        .player
        .inventory
        .push(make_test_item(&state.data, "herb"));
    state.process_turn(GameCommand::UseItem(0)).unwrap();
    assert_eq!(state.player.max_hp, 31);
    assert_eq!(state.player.hp, 31);
}

#[test]
fn use_food_restores_fullness() {
    let mut state = make_test_state();
    state.player.fullness = 500;
    state
        .player
        .inventory
        .push(make_test_item(&state.data, "ration"));
    state.process_turn(GameCommand::UseItem(0)).unwrap();
    assert_eq!(state.player.fullness, 999);
}

#[test]
fn use_power_herb_boosts_attack() {
    let mut state = make_test_state();
    let old_attack = state.player.attack;
    state
        .player
        .inventory
        .push(make_test_item(&state.data, "power_herb"));
    state.process_turn(GameCommand::UseItem(0)).unwrap();
    assert_eq!(state.player.attack, old_attack + 1);
}

// --- Fullness / Starvation ---

#[test]
fn fullness_decreases_each_turn() {
    let mut state = make_test_state();
    let initial = state.player.fullness;
    state.process_turn(GameCommand::Wait).unwrap();
    assert_eq!(state.player.fullness, initial - 1);
}

#[test]
fn starvation_damages_player() {
    let mut state = make_test_state();
    state.player.fullness = 0;
    let hp_before = state.player.hp;
    let events = state.process_turn(GameCommand::Wait).unwrap();
    assert_eq!(state.player.hp, hp_before - 1);
    assert!(events.iter().any(|e| matches!(e, GameEvent::Starving)));
}

// --- Level up ---

#[test]
fn level_up_on_exp_threshold() {
    let mut state = make_test_state();
    state.player.exp = 29;
    state
        .monsters
        .push(make_test_monster(&state.data, "slime", Position::new(3, 2)));
    let events = state
        .process_turn(GameCommand::Move(Direction::Right))
        .unwrap();
    assert_eq!(state.player.level, 2);
    assert!(events
        .iter()
        .any(|e| matches!(e, GameEvent::LevelUp { new_level: 2 })));
}

// --- Equipment ---

#[test]
fn equip_weapon_from_inventory() {
    let mut state = make_test_state();
    let sword = make_test_equip(&state.data, "iron_sword", 1);
    let item = equipment_to_item(&sword);
    state.player.inventory.push(item);

    let events = state.process_turn(GameCommand::EquipWeapon(0)).unwrap();
    assert!(state.player.weapon.is_some());
    assert_eq!(state.player.weapon.as_ref().unwrap().base_value, 6);
    assert!(events
        .iter()
        .any(|e| matches!(e, GameEvent::Equipped { .. })));
    assert!(state.player.inventory.is_empty());
}

#[test]
fn equip_weapon_swaps_old_to_inventory() {
    let mut state = make_test_state();
    state.player.weapon = Some(make_test_equip(&state.data, "wooden_sword", 0));
    let new_sword = equipment_to_item(&make_test_equip(&state.data, "iron_sword", 0));
    state.player.inventory.push(new_sword);

    state.process_turn(GameCommand::EquipWeapon(0)).unwrap();
    assert_eq!(state.player.weapon.as_ref().unwrap().base_value, 6);
    assert_eq!(state.player.inventory.len(), 1);
}

// --- Staff usage ---

#[test]
fn use_paralysis_staff_paralyzes_monster() {
    let mut state = make_test_state();
    state.player.direction = Direction::Right;
    state.player.inventory.push(make_test_item_with_charges(
        &state.data,
        "paralysis_staff",
        3,
    ));
    state
        .monsters
        .push(make_test_monster(&state.data, "golem", Position::new(5, 2)));

    state.process_turn(GameCommand::UseStaff(0)).unwrap();
    assert!(state.monsters[0].status.paralyzed);
}

#[test]
fn use_staff_decreases_charges() {
    let mut state = make_test_state();
    state.player.direction = Direction::Right;
    state.player.inventory.push(make_test_item_with_charges(
        &state.data,
        "paralysis_staff",
        3,
    ));
    state
        .monsters
        .push(make_test_monster(&state.data, "golem", Position::new(5, 2)));

    state.process_turn(GameCommand::UseStaff(0)).unwrap();
    match &state.player.inventory[0].category {
        ItemCategory::Staff(c) => assert_eq!(*c, 2),
        _ => panic!("Expected staff"),
    }
}

#[test]
fn use_swap_staff_swaps_positions() {
    let mut state = make_test_state();
    state.player.pos = Position::new(2, 2);
    state.player.direction = Direction::Right;
    state
        .player
        .inventory
        .push(make_test_item_with_charges(&state.data, "swap_staff", 3));
    let mut monster = make_test_monster(&state.data, "golem", Position::new(5, 2));
    monster.status.paralyzed = true;
    state.monsters.push(monster);

    state.process_turn(GameCommand::UseStaff(0)).unwrap();
    assert_eq!(state.player.pos, Position::new(5, 2));
    assert_eq!(state.monsters[0].pos, Position::new(2, 2));
}

// --- Monster turns ---

#[test]
fn paralyzed_monster_does_not_act() {
    let mut state = make_test_state();
    let mut monster = make_test_monster(&state.data, "slime", Position::new(3, 2));
    monster.status.paralyzed = true;
    let pos_before = monster.pos;
    state.monsters.push(monster);

    let hp_before = state.player.hp;
    state.process_turn(GameCommand::Wait).unwrap();
    assert_eq!(state.player.hp, hp_before);
    assert_eq!(state.monsters[0].pos, pos_before);
}

// --- Game state checks ---

#[test]
fn is_game_over() {
    let mut state = make_test_state();
    assert!(!state.is_game_over());
    state.player.hp = 0;
    assert!(state.is_game_over());
}

#[test]
fn is_game_clear() {
    let mut state = make_test_state();
    assert!(!state.is_game_clear());
    state.floor = 11;
    assert!(state.is_game_clear());
}

#[test]
fn wait_increments_turn() {
    let mut state = make_test_state();
    assert_eq!(state.turn, 0);
    state.process_turn(GameCommand::Wait).unwrap();
    assert_eq!(state.turn, 1);
}

#[test]
fn open_inventory_does_not_consume_turn() {
    let mut state = make_test_state();
    let events = state.process_turn(GameCommand::OpenInventory).unwrap();
    assert!(events
        .iter()
        .any(|e| matches!(e, GameEvent::RequestInventory)));
    assert_eq!(state.turn, 0);
}

// --- Monster count per floor ---

#[test]
fn monster_count_for_floor_values() {
    let state = make_test_state();
    assert_eq!(state.monster_count_for_floor(1), 8);
    assert_eq!(state.monster_count_for_floor(3), 8);
    assert_eq!(state.monster_count_for_floor(4), 10);
    assert_eq!(state.monster_count_for_floor(7), 12);
    assert_eq!(state.monster_count_for_floor(10), 15);
}

// --- Confused monster ---

#[test]
fn confused_monster_does_not_attack() {
    let mut state = make_test_state();
    let mut monster = make_test_monster(&state.data, "slime", Position::new(3, 2));
    monster.status.confused = Some(5);
    state.monsters.push(monster);

    let hp_before = state.player.hp;
    state.process_turn(GameCommand::Wait).unwrap();
    assert_eq!(state.player.hp, hp_before);
}

// === 境界条件テスト ===

#[test]
fn attack_damage_clamped_to_one_when_defense_exceeds_attack() {
    let mut state = make_test_state();
    state.player.attack = 1;
    state.player.weapon = None;
    state.monsters.push(make_test_monster(
        &state.data,
        "guardian",
        Position::new(3, 2),
    ));

    let events = state
        .process_turn(GameCommand::Move(Direction::Right))
        .unwrap();
    assert!(events
        .iter()
        .any(|e| matches!(e, GameEvent::PlayerAttacked { damage: 1, .. })));
    assert_eq!(state.monsters[0].hp, 60 - 1);
}

#[test]
fn monster_damage_clamped_to_one_when_defense_exceeds_attack() {
    let mut state = make_test_state();
    state.player.shield = Some(make_test_equip(&state.data, "steel_shield", 0));
    state
        .monsters
        .push(make_test_monster(&state.data, "slime", Position::new(3, 2)));

    let hp_before = state.player.hp;
    state.process_turn(GameCommand::Wait).unwrap();
    assert_eq!(state.player.hp, hp_before - 1);
    assert!(state.player.hp > 0);
}

#[test]
fn use_herb_clamps_to_max_hp() {
    let mut state = make_test_state();
    state.player.hp = 29;
    state
        .player
        .inventory
        .push(make_test_item(&state.data, "herb"));
    state.process_turn(GameCommand::UseItem(0)).unwrap();
    assert_eq!(state.player.hp, 30);
    assert_eq!(state.player.max_hp, 30);
}

#[test]
fn use_food_at_max_fullness() {
    let mut state = make_test_state();
    state.player.fullness = 1000;
    state.player.max_fullness = 1000;
    state
        .player
        .inventory
        .push(make_test_item(&state.data, "ration"));
    state.process_turn(GameCommand::UseItem(0)).unwrap();
    assert_eq!(state.player.fullness, 999);
}

#[test]
fn use_staff_with_zero_charges() {
    let mut state = make_test_state();
    state.player.direction = Direction::Right;
    state.player.inventory.push(make_test_item_with_charges(
        &state.data,
        "paralysis_staff",
        0,
    ));
    state
        .monsters
        .push(make_test_monster(&state.data, "golem", Position::new(5, 2)));

    let events = state.process_turn(GameCommand::UseStaff(0)).unwrap();
    assert!(events
        .iter()
        .any(|e| matches!(e, GameEvent::Message(m) if m.contains("何も起こらなかった"))));
    assert!(!state.monsters[0].status.paralyzed);
}

#[test]
fn use_item_out_of_bounds_index() {
    let mut state = make_test_state();
    let result = state.process_turn(GameCommand::UseItem(99));
    assert!(matches!(result, Err(TurnError::InvalidInventoryIndex(99))));
    assert_eq!(state.turn, 0);
}

#[test]
fn use_staff_out_of_bounds_index() {
    let mut state = make_test_state();
    let result = state.process_turn(GameCommand::UseStaff(99));
    assert!(matches!(result, Err(TurnError::InvalidInventoryIndex(99))));
    assert_eq!(state.turn, 0);
}

#[test]
fn equip_weapon_out_of_bounds_index() {
    let mut state = make_test_state();
    let result = state.process_turn(GameCommand::EquipWeapon(99));
    assert!(matches!(result, Err(TurnError::InvalidInventoryIndex(99))));
    assert!(state.player.weapon.is_none());
    assert_eq!(state.turn, 0);
}

#[test]
fn level_up_at_exact_threshold() {
    let mut state = make_test_state();
    state.player.exp = 30;
    state
        .monsters
        .push(make_test_monster(&state.data, "slime", Position::new(3, 2)));
    state
        .process_turn(GameCommand::Move(Direction::Right))
        .unwrap();
    assert_eq!(state.player.level, 2);
}

#[test]
fn no_level_up_below_threshold() {
    let mut state = make_test_state();
    state.player.exp = 25;
    state
        .monsters
        .push(make_test_monster(&state.data, "slime", Position::new(3, 2)));
    state
        .process_turn(GameCommand::Move(Direction::Right))
        .unwrap();
    assert_eq!(state.player.level, 1);
}

#[test]
fn starvation_causes_game_over() {
    let mut state = make_test_state();
    state.player.fullness = 0;
    state.player.hp = 1;
    let events = state.process_turn(GameCommand::Wait).unwrap();
    assert!(events.iter().any(|e| matches!(e, GameEvent::Starving)));
    assert!(events.iter().any(|e| matches!(e, GameEvent::GameOver)));
    assert_eq!(state.player.hp, 0);
}

// === 投擲テスト ===

#[test]
fn throw_herb_hits_monster_deals_damage_and_heals() {
    let mut state = make_test_state();
    state.player.direction = Direction::Right;
    state
        .player
        .inventory
        .push(make_test_item(&state.data, "herb"));
    let mut monster = make_test_monster(&state.data, "slime", Position::new(5, 2));
    monster.hp = 4;
    state.monsters.push(monster);

    let events = state.process_turn(GameCommand::ThrowItem(0)).unwrap();
    assert!(events
        .iter()
        .any(|e| matches!(e, GameEvent::ItemThrown { .. })));
    assert_eq!(state.monsters[0].hp, 5);
    assert!(state.player.inventory.is_empty());
}

#[test]
fn throw_toward_wall_item_lost() {
    let mut state = make_test_state();
    state.player.pos = Position::new(1, 2);
    state.player.direction = Direction::Left;
    state
        .player
        .inventory
        .push(make_test_item(&state.data, "herb"));

    let events = state.process_turn(GameCommand::ThrowItem(0)).unwrap();
    assert!(events.iter().any(|e| matches!(e, GameEvent::ItemThrown { ref result_desc, .. } if result_desc.contains("壁"))));
    assert!(state.player.inventory.is_empty());
    assert!(state.floor_items.is_empty());
}

#[test]
fn throw_misses_drops_on_ground() {
    let data = make_test_master_data();
    let mut map = GameMap::new(20, 10, Position::new(18, 8));
    for y in 1..=8 {
        for x in 1..=18 {
            map.set(
                x,
                y,
                MapCell {
                    terrain: Terrain::Floor { room_id: 1 },
                },
            );
        }
    }
    let mut player = Player::new(&data.player);
    player.pos = Position::new(2, 2);
    player.direction = Direction::Right;
    player.inventory.push(make_test_item(&data, "herb"));

    let mut state = GameState {
        player,
        monsters: Vec::new(),
        floor_items: Vec::new(),
        floor_equips: Vec::new(),
        map,
        visibility: Visibility::new(),
        floor: 1,
        turn: 0,
        data,
    };
    state.visibility.update(&state.player.pos, &state.map);

    let events = state.process_turn(GameCommand::ThrowItem(0)).unwrap();
    assert!(events.iter().any(|e| matches!(e, GameEvent::ItemThrown { ref result_desc, .. } if result_desc.contains("地面"))));
    assert!(state.player.inventory.is_empty());
    assert_eq!(state.floor_items.len(), 1);
    assert_eq!(state.floor_items[0].pos, Position::new(12, 2));
}

#[test]
fn throw_weapon_deals_half_attack() {
    let mut state = make_test_state();
    state.player.direction = Direction::Right;
    let weapon_item = Item {
        id: "iron_sword".into(),
        name: "鉄の剣+2".into(),
        symbol: ')',
        category: ItemCategory::Weapon,
        effect: ItemEffect::Heal(0),
        equip_data: Some(EquipData {
            base_value: 6,
            enhancement: 2,
        }),
    };
    state.player.inventory.push(weapon_item);
    state.monsters.push(make_test_monster(
        &state.data,
        "specter",
        Position::new(5, 2),
    ));

    let events = state.process_turn(GameCommand::ThrowItem(0)).unwrap();
    assert!(events
        .iter()
        .any(|e| matches!(e, GameEvent::ItemThrown { .. })));
    assert_eq!(state.monsters[0].hp, 22 - 4);
}

#[test]
fn throw_power_herb_boosts_monster_attack() {
    let mut state = make_test_state();
    state.player.direction = Direction::Right;
    state
        .player
        .inventory
        .push(make_test_item(&state.data, "power_herb"));
    state
        .monsters
        .push(make_test_monster(&state.data, "slime", Position::new(4, 2)));

    let original_attack = state.monsters[0].attack;
    let events = state.process_turn(GameCommand::ThrowItem(0)).unwrap();
    assert!(events
        .iter()
        .any(|e| matches!(e, GameEvent::ItemThrown { .. })));
    assert_eq!(state.monsters[0].attack, original_attack + 1);
}

#[test]
fn throw_kills_monster_grants_exp() {
    let mut state = make_test_state();
    state.player.direction = Direction::Right;
    state
        .player
        .inventory
        .push(make_test_item(&state.data, "ration"));
    let mut monster = make_test_monster(&state.data, "slime", Position::new(4, 2));
    monster.hp = 2;
    let exp = monster.exp;
    state.monsters.push(monster);

    let events = state.process_turn(GameCommand::ThrowItem(0)).unwrap();
    assert!(events
        .iter()
        .any(|e| matches!(e, GameEvent::MonsterDefeated { .. })));
    assert_eq!(state.player.exp, exp);
    assert!(state.monsters.is_empty());
}

#[test]
fn throw_invalid_index_returns_error() {
    let mut state = make_test_state();
    let result = state.process_turn(GameCommand::ThrowItem(0));
    assert!(result.is_err());
}

#[test]
fn throw_staff_deals_flat_damage() {
    let mut state = make_test_state();
    state.player.direction = Direction::Right;
    state.player.inventory.push(make_test_item_with_charges(
        &state.data,
        "paralysis_staff",
        3,
    ));
    state.monsters.push(make_test_monster(
        &state.data,
        "specter",
        Position::new(5, 2),
    ));

    let events = state.process_turn(GameCommand::ThrowItem(0)).unwrap();
    assert!(events
        .iter()
        .any(|e| matches!(e, GameEvent::ItemThrown { .. })));
    assert_eq!(state.monsters[0].hp, 22 - 2);
    assert!(!state.monsters[0].status.paralyzed);
}

// --- Further checks of the library ---

#[test]
fn new_game_starts_on_floor_one_with_spread_entities() {
    let data = make_test_master_data();
    assert!(ayz::game::checks::data_within_limits(&data));
    assert!(ayz::game::checks::can_play(&data));
    let state = GameState::new(data);
    assert_eq!(state.floor, 1);
    assert_eq!(state.turn, 0);
    assert_eq!(state.map.width, 100);
    assert_eq!(state.map.height, 50);
    assert_eq!(state.monsters.len(), 8);
    assert!(state.floor_items.len() >= 3 + 2 + 1);
    assert!(state.floor_items.len() <= 3 + 2 + 2 + 1);
    assert!(state.floor_equips.len() <= 1);
    let mut cells: Vec<Position> = state.monsters.iter().map(|m| m.pos).collect();
    cells.extend(state.floor_items.iter().map(|f| f.pos));
    cells.extend(state.floor_equips.iter().map(|f| f.pos));
    cells.push(state.player.pos);
    for (i, a) in cells.iter().enumerate() {
        for b in cells.iter().skip(i + 1) {
            assert!(a != b || *a == Position::zero());
        }
        if *a != Position::zero() {
            assert!(state.map.get(a).unwrap().is_room());
            assert!(!state.map.is_exit(a));
        }
    }
    assert!(state.within_limits());
    assert!(state.visibility.is_visible(&state.player.pos) || !state.map.is_walkable(&state.player.pos));
}

#[test]
fn staff_always_spawns_when_chance_is_certain() {
    let base = make_test_master_data();
    let mut floors = base.floors.clone();
    floors.staff_spawns.chance = 1_000_000;
    floors.equipment_spawns[0].chance = 0;
    let data = Arc::new(MasterData {
        items: base.items.clone(),
        equipment: base.equipment.clone(),
        monsters: base.monsters.clone(),
        floors,
        player: base.player.clone(),
        balance: base.balance,
        map: base.map,
    });
    let state = GameState::new(data);
    let staffs = state
        .floor_items
        .iter()
        .filter(|f| matches!(f.item.category, ItemCategory::Staff(c) if (3..=6).contains(&c)))
        .count();
    assert_eq!(staffs, 1);
    assert!(state.floor_equips.is_empty());
}

#[test]
fn monsters_for_floor_picks_the_covering_entry() {
    let state = make_test_state();
    assert_eq!(state.monsters_for_floor(1), vec!["slime".to_string(), "goblin".to_string()]);
    assert_eq!(state.monsters_for_floor(3).len(), 3);
    assert_eq!(state.monsters_for_floor(2000), vec!["drake".to_string(), "imp".to_string(), "guardian".to_string()]);
}

#[test]
fn wait_twice_counts_two_turns() {
    let mut state = make_test_state();
    state.process_turn(GameCommand::Wait).unwrap();
    state.process_turn(GameCommand::Wait).unwrap();
    assert_eq!(state.turn, 2);
    assert_eq!(state.player.fullness, 998);
}

#[test]
fn turn_changes_direction_only() {
    let mut state = make_test_state();
    let events = state.process_turn(GameCommand::Turn(Direction::Up)).unwrap();
    assert!(events.is_empty());
    assert_eq!(state.player.direction, Direction::Up);
    assert_eq!(state.player.pos, Position::new(2, 2));
    assert_eq!(state.turn, 0);
    assert_eq!(state.player.fullness, 1000);
}

#[test]
fn quit_changes_nothing() {
    let mut state = make_test_state();
    let events = state.process_turn(GameCommand::Quit).unwrap();
    assert!(events.is_empty());
    assert_eq!(state.turn, 0);
}

#[test]
fn open_throw_inventory_does_not_consume_turn() {
    let mut state = make_test_state();
    let events = state.process_turn(GameCommand::OpenThrowInventory).unwrap();
    assert!(matches!(events.as_slice(), [GameEvent::RequestThrowInventory]));
    assert_eq!(state.turn, 0);
}

#[test]
fn pickup_never_overfills_inventory() {
    let mut state = make_test_state();
    for _ in 0..19 {
        state.player.inventory.push(make_test_item(&state.data, "herb"));
    }
    state.floor_items.push(FloorItem { item: make_test_item(&state.data, "herb"), pos: Position::new(3, 2) });
    state.floor_items.push(FloorItem { item: make_test_item(&state.data, "ration"), pos: Position::new(3, 2) });
    let events = state.process_turn(GameCommand::Move(Direction::Right)).unwrap();
    assert_eq!(state.player.inventory.len(), 20);
    assert_eq!(state.floor_items.len(), 1);
    assert!(events.iter().any(|e| matches!(e, GameEvent::ItemPickedUp { .. })));
    state.process_turn(GameCommand::Move(Direction::Left)).unwrap();
    state.process_turn(GameCommand::Move(Direction::Right)).unwrap();
    assert_eq!(state.player.inventory.len(), 20);
}

#[test]
fn heal_never_exceeds_max_hp() {
    let mut state = make_test_state();
    state.player.hp = 20;
    state.player.inventory.push(make_test_item(&state.data, "herb"));
    state.process_turn(GameCommand::UseItem(0)).unwrap();
    assert_eq!(state.player.hp, 30);
    assert!(state.player.hp <= state.player.max_hp);
}

#[test]
fn equip_shield_raises_defense() {
    let mut state = make_test_state();
    let shield = equipment_to_item(&make_test_equip(&state.data, "iron_shield", 1));
    state.player.inventory.push(shield);
    let events = state.process_turn(GameCommand::EquipShield(0)).unwrap();
    assert_eq!(state.player.effective_defense(), 5 + 6);
    assert!(events.iter().any(|e| matches!(e, GameEvent::Equipped { name } if name == "鉄の盾+1")));
}

#[test]
fn monster_next_to_player_attacks() {
    let mut state = make_test_state();
    state.monsters.push(make_test_monster(&state.data, "goblin", Position::new(3, 3)));
    let events = state.process_turn(GameCommand::Wait).unwrap();
    assert_eq!(state.player.hp, 30 - 1);
    assert!(events.iter().any(|e| matches!(e, GameEvent::MonsterAttacked { damage: 1, .. })));
    assert!(events.iter().any(|e| matches!(e, GameEvent::PlayerDamaged { amount: 1, remaining_hp: 29 })));
}

#[test]
fn monster_in_room_chases_player() {
    let mut state = make_test_state();
    state.monsters.push(make_test_monster(&state.data, "goblin", Position::new(6, 2)));
    state.process_turn(GameCommand::Wait).unwrap();
    assert_eq!(state.monsters[0].pos, Position::new(5, 2));
}

#[test]
fn confusion_scroll_confuses_all_monsters() {
    let mut state = make_test_state();
    state.monsters.push(make_test_monster(&state.data, "goblin", Position::new(6, 6)));
    state.player.inventory.push(make_test_item(&state.data, "confusion_scroll"));
    let events = state.process_turn(GameCommand::UseItem(0)).unwrap();
    assert!(events.iter().any(|e| matches!(e, GameEvent::ItemUsed { effect_desc, .. } if effect_desc == "フロアのモンスター1体が混乱した")));
    assert_eq!(state.monsters[0].status.confused, Some(9));
}

#[test]
fn knockback_staff_pushes_monster_to_the_wall() {
    let mut state = make_test_state();
    state.player.direction = Direction::Right;
    state.player.inventory.push(make_test_item_with_charges(&state.data, "knockback_staff", 2));
    let mut monster = make_test_monster(&state.data, "golem", Position::new(4, 2));
    monster.status.paralyzed = true;
    state.monsters.push(monster);
    let events = state.process_turn(GameCommand::UseStaff(0)).unwrap();
    assert_eq!(state.monsters[0].pos, Position::new(8, 2));
    assert!(events.iter().any(|e| matches!(e, GameEvent::Message(m) if m == "ゴーレムを4マス吹き飛ばした")));
}

#[test]
fn limits_reject_oversized_stats() {
    let mut state = make_test_state();
    assert!(state.within_limits());
    state.player.exp = 2_000_000_000;
    assert!(!state.within_limits());
}

#[test]
fn data_without_monster_list_is_not_playable() {
    let base = make_test_master_data();
    let mut floors = base.floors.clone();
    floors.monster_table.clear();
    let data = MasterData {
        items: base.items.clone(),
        equipment: base.equipment.clone(),
        monsters: base.monsters.clone(),
        floors,
        player: base.player.clone(),
        balance: base.balance,
        map: base.map,
    };
    assert!(!ayz::game::checks::can_play(&data));
    assert!(ayz::game::checks::can_spawn(&base, 10));
}

#[test]
fn screen_shows_what_is_seen_and_remembered() {
    let mut state = make_test_state();
    let slime = make_test_monster(&state.data, "slime", Position::new(3, 3));
    let slime_symbol = slime.symbol;
    state.monsters.push(slime);
    let herb = make_test_item(&state.data, "herb");
    let herb_symbol = herb.symbol;
    state.floor_items.push(FloorItem { item: herb, pos: Position::new(4, 4) });
    state.floor_items.push(FloorItem { item: make_test_item(&state.data, "herb"), pos: Position::new(3, 3) });
    let player_symbol = state.player.symbol;
    assert_eq!(screen_glyph(&state, &Position::new(2, 2)), player_symbol);
    assert_eq!(screen_glyph(&state, &Position::new(3, 3)), slime_symbol);
    assert_eq!(screen_glyph(&state, &Position::new(4, 4)), herb_symbol);
    assert_eq!(screen_glyph(&state, &Position::new(5, 5)), '.');
    assert_eq!(screen_glyph(&state, &Position::new(8, 8)), '+');
    assert_eq!(screen_glyph(&state, &Position::new(0, 0)), ' ');
    // remembered but out of sight: terrain only, dimmed
    state.visibility.visible.clear();
    assert_eq!(screen_glyph(&state, &Position::new(3, 3)), ':');
    assert_eq!(screen_glyph(&state, &Position::new(8, 8)), '+');
    // never seen: blank
    state.visibility.visited.clear();
    assert_eq!(screen_glyph(&state, &Position::new(5, 5)), ' ');
}

#[test]
fn undefined_spawn_ids_still_leave_everyone_on_their_own_room_cell() {
    let base = make_test_master_data();
    let mut floors = base.floors.clone();
    floors.scroll_spawns.pool = vec!["no_such_scroll".to_string()];
    floors.staff_spawns.pool = vec!["no_such_staff".to_string()];
    let data = Arc::new(MasterData {
        items: base.items.clone(),
        equipment: base.equipment.clone(),
        monsters: base.monsters.clone(),
        floors,
        player: base.player.clone(),
        balance: base.balance,
        map: base.map,
    });
    assert!(ayz::game::checks::data_within_limits(&data));
    assert!(ayz::game::checks::can_play(&data));
    let state = GameState::new(data);
    assert!(state.floor_items.iter().all(|f| f.item.id != "no_such_scroll" && f.item.id != "no_such_staff"));
    let mut cells: Vec<Position> = state.monsters.iter().map(|m| m.pos).collect();
    cells.extend(state.floor_items.iter().map(|f| f.pos));
    cells.extend(state.floor_equips.iter().map(|f| f.pos));
    cells.push(state.player.pos);
    for (i, a) in cells.iter().enumerate() {
        for b in cells.iter().skip(i + 1) {
            assert_ne!(a, b);
        }
        assert!(state.map.get(a).unwrap().is_room());
        assert!(!state.map.is_exit(a));
    }
}
