use ayz::game::data_loader::{validate, DataLoadError};
use ayz::game::spawning::pick_weighted;
use ayz::game::master_data::{
    BalanceData, EquipSpawnEntry, FloorData, FloorRange, FoodSpawnEntry, FoodSpawnItem, MapData, MasterData,
    MonsterCountEntry, MonsterTableEntry, PlayerData, PlayerInitialStats, ScrollSpawnDef, StaffSpawnDef,
};

fn empty_data() -> MasterData {
    MasterData {
        items: vec![],
        equipment: vec![],
        monsters: vec![],
        floors: FloorData {
            monster_table: vec![],
            monster_counts: vec![MonsterCountEntry { floors: FloorRange(1, 999), count: 0 }],
            herb_spawns: vec![],
            food_spawns: vec![],
            scroll_spawns: ScrollSpawnDef { min: 0, max: 0, pool: vec![] },
            staff_spawns: StaffSpawnDef { chance: 0, min_charges: 0, max_charges: 0, pool: vec![] },
            equipment_spawns: vec![],
        },
        player: PlayerData {
            initial_stats: PlayerInitialStats {
                level: 1, hp: 30, attack: 8, defense: 5, fullness: 1000, max_fullness: 1000, symbol: '@',
            },
            max_inventory: 20,
            level_table: vec![],
        },
        balance: BalanceData {
            min_damage: 1,
            thrown_non_weapon_damage: 2,
            fullness_decrease_per_turn: 1,
            starvation_damage: 1,
            detection_range: 5,
            staff_range: 20,
            throw_range: 10,
        },
        map: MapData {
            width: 100,
            height: 50,
            min_room_size: 3,
            min_aisle_size: 2,
            cut_trial: 9,
            max_random_aisles: 6,
            max_floor: 10,
        },
    }
}

fn message(r: Result<(), DataLoadError>) -> String {
    match r {
        Err(DataLoadError::ValidationError(m)) => m,
        _ => panic!("expected a validation error"),
    }
}

#[test]
fn validate_accepts_consistent_data() {
    assert!(validate(&empty_data()).is_ok());
}

#[test]
fn validate_reports_unknown_monster() {
    let mut d = empty_data();
    d.floors.monster_table.push(MonsterTableEntry { floors: FloorRange(1, 2), monsters: vec!["ghost".into()] });
    assert_eq!(message(validate(&d)), "Monster 'ghost' referenced in floor table but not defined in monsters.ron");
}

#[test]
fn validate_reports_unknown_scroll_and_staff() {
    let mut d = empty_data();
    d.floors.scroll_spawns.pool.push("x_scroll".into());
    assert_eq!(message(validate(&d)), "Item 'x_scroll' referenced in scroll pool but not defined in items.ron");
    let mut d = empty_data();
    d.floors.staff_spawns.pool.push("x_staff".into());
    assert_eq!(message(validate(&d)), "Item 'x_staff' referenced in staff pool but not defined in items.ron");
}

#[test]
fn validate_reports_unknown_equipment_and_food() {
    let mut d = empty_data();
    d.floors.equipment_spawns.push(EquipSpawnEntry {
        floors: FloorRange(1, 3),
        chance: 0,
        weapons: vec![],
        shields: vec!["x_shield".into()],
        max_enhancement: 0,
    });
    assert_eq!(
        message(validate(&d)),
        "Equipment 'x_shield' referenced in equipment spawns but not defined in equipment.ron"
    );
    let mut d = empty_data();
    d.floors.food_spawns.push(FoodSpawnEntry {
        floors: FloorRange(1, 3),
        count: 1,
        items: vec![FoodSpawnItem { id: "x_food".into(), weight: 1 }],
    });
    assert_eq!(message(validate(&d)), "Item 'x_food' referenced in food spawns but not defined in items.ron");
}

#[test]
fn validate_reports_the_first_missing_id() {
    let mut d = empty_data();
    d.floors.staff_spawns.pool.push("x_staff".into());
    d.floors.scroll_spawns.pool.push("a_scroll".into());
    d.floors.scroll_spawns.pool.push("b_scroll".into());
    d.floors.equipment_spawns.push(EquipSpawnEntry {
        floors: FloorRange(1, 3),
        chance: 0,
        weapons: vec!["x_sword".into()],
        shields: vec![],
        max_enhancement: 0,
    });
    assert_eq!(message(validate(&d)), "Item 'a_scroll' referenced in scroll pool but not defined in items.ron");
    d.floors.monster_table.push(MonsterTableEntry { floors: FloorRange(1, 2), monsters: vec![] });
    d.floors.monster_table.push(MonsterTableEntry {
        floors: FloorRange(3, 4),
        monsters: vec!["ghost".into(), "ghoul".into()],
    });
    assert_eq!(message(validate(&d)), "Monster 'ghost' referenced in floor table but not defined in monsters.ron");
}

#[test]
fn error_descriptions() {
    let e = DataLoadError::ValidationError("bad".into());
    assert_eq!(e.describe(), "Data validation error: bad");
    let e = DataLoadError::IoError { file: "items.ron".into(), message: "missing".into() };
    assert_eq!(e.describe(), "Failed to read 'items.ron': missing");
    let e = DataLoadError::ParseError { file: "map.ron".into(), message: "eof".into() };
    assert_eq!(e.describe(), "Failed to parse 'map.ron': eof");
}

#[test]
fn limits_and_playability_checks() {
    let d = empty_data();
    assert!(ayz::game::checks::data_within_limits(&d));
    assert!(ayz::game::checks::can_play(&d));
    let mut d2 = empty_data();
    d2.balance.min_damage = -1;
    assert!(!ayz::game::checks::data_within_limits(&d2));
    let mut d3 = empty_data();
    d3.floors.scroll_spawns.max = 2;
    assert!(!ayz::game::checks::can_play(&d3));
}

#[test]
fn drawn_value_picks_the_food_by_running_weight() {
    let items = vec![
        FoodSpawnItem { id: "none".into(), weight: 0 },
        FoodSpawnItem { id: "bread".into(), weight: 300 },
        FoodSpawnItem { id: "meat".into(), weight: 700 },
    ];
    assert_eq!(pick_weighted(&items, 0), 1);
    assert_eq!(pick_weighted(&items, 299), 1);
    assert_eq!(pick_weighted(&items, 300), 2);
    assert_eq!(pick_weighted(&items, 999), 2);
}
