use ayz::game::entity::{
    EquipCategory, Equipment, Item, ItemCategory, ItemEffect, Monster, Player, StatusEffects,
};
use ayz::game::master_data::{
    AiTypeDef, EquipCategoryDef, EquipmentDef, ItemCategoryDef, ItemDef, ItemEffectDef, MonsterStatsDef,
    PlayerData, PlayerInitialStats,
};
use ayz::game::types::Position;

fn test_player_data() -> PlayerData {
    PlayerData {
        initial_stats: PlayerInitialStats {
            level: 1,
            hp: 30,
            attack: 8,
            defense: 5,
            fullness: 1000,
            max_fullness: 1000,
            symbol: '@',
        },
        max_inventory: 20,
        level_table: vec![],
    }
}

fn test_item_def(name: &str, category: ItemCategoryDef, effect: ItemEffectDef) -> ItemDef {
    ItemDef { name: name.to_string(), symbol: '!', category, effect }
}

fn test_equip_def(name: &str, category: EquipCategoryDef, base_value: i32) -> EquipmentDef {
    EquipmentDef { name: name.to_string(), symbol: ')', category, base_value }
}

fn test_monster_def(name: &str, hp: i32, attack: i32, defense: i32, exp: i32) -> MonsterStatsDef {
    MonsterStatsDef { name: name.to_string(), symbol: 's', hp, attack, defense, exp, ai_type: AiTypeDef::Standard }
}

#[test]
fn equipment_display_name_no_enhancement() {
    let def = test_equip_def("木の剣", EquipCategoryDef::Weapon, 3);
    let e = Equipment::from_def("wooden_sword", &def, 0);
    assert_eq!(e.display_name(), "木の剣");
}

#[test]
fn equipment_display_name_with_enhancement() {
    let def = test_equip_def("鉄の剣", EquipCategoryDef::Weapon, 6);
    let e = Equipment::from_def("iron_sword", &def, 3);
    assert_eq!(e.display_name(), "鉄の剣+3");
}

#[test]
fn equipment_effective_value() {
    let def = test_equip_def("木の剣", EquipCategoryDef::Weapon, 3);
    let e = Equipment::from_def("wooden_sword", &def, 2);
    assert_eq!(e.effective_value(), 3 + 2);
}

#[test]
fn weapon_from_def() {
    let def = test_equip_def("木の剣", EquipCategoryDef::Weapon, 3);
    let w = Equipment::from_def("wooden_sword", &def, 0);
    assert_eq!(w.base_value, 3);
    assert_eq!(w.category, EquipCategory::Weapon);

    let def = test_equip_def("鉄の剣", EquipCategoryDef::Weapon, 6);
    let w = Equipment::from_def("iron_sword", &def, 0);
    assert_eq!(w.base_value, 6);

    let def = test_equip_def("鋼の剣", EquipCategoryDef::Weapon, 10);
    let w = Equipment::from_def("steel_sword", &def, 0);
    assert_eq!(w.base_value, 10);
}

#[test]
fn shield_from_def() {
    let def = test_equip_def("木の盾", EquipCategoryDef::Shield, 3);
    let s = Equipment::from_def("wooden_shield", &def, 0);
    assert_eq!(s.base_value, 3);
    assert_eq!(s.category, EquipCategory::Shield);

    let def = test_equip_def("鉄の盾", EquipCategoryDef::Shield, 5);
    let s = Equipment::from_def("iron_shield", &def, 0);
    assert_eq!(s.base_value, 5);

    let def = test_equip_def("鋼の盾", EquipCategoryDef::Shield, 9);
    let s = Equipment::from_def("steel_shield", &def, 0);
    assert_eq!(s.base_value, 9);
}

#[test]
fn status_effects_tick_confused_decrements() {
    let mut status = StatusEffects { confused: Some(3), paralyzed: false, attack_boost: None };
    status.tick();
    assert_eq!(status.confused, Some(2));
    status.tick();
    assert_eq!(status.confused, Some(1));
    status.tick();
    assert_eq!(status.confused, None);
}

#[test]
fn status_effects_tick_attack_boost_decrements() {
    let mut status = StatusEffects { confused: None, paralyzed: false, attack_boost: Some((5, 2)) };
    status.tick();
    assert_eq!(status.attack_boost, Some((5, 1)));
    status.tick();
    assert_eq!(status.attack_boost, None);
}

#[test]
fn status_effects_tick_paralyzed_unchanged() {
    let mut status = StatusEffects { confused: None, paralyzed: true, attack_boost: None };
    status.tick();
    assert!(status.paralyzed);
}

#[test]
fn player_new_initial_stats() {
    let data = test_player_data();
    let p = Player::new(&data);
    assert_eq!(p.level, 1);
    assert_eq!(p.hp, 30);
    assert_eq!(p.max_hp, 30);
    assert_eq!(p.attack, 8);
    assert_eq!(p.defense, 5);
    assert_eq!(p.fullness, 1000);
    assert!(p.weapon.is_none());
    assert!(p.shield.is_none());
    assert!(p.inventory.is_empty());
}

#[test]
fn player_effective_attack_bare_hands() {
    let data = test_player_data();
    let p = Player::new(&data);
    assert_eq!(p.effective_attack(), 8);
}

#[test]
fn player_effective_attack_with_weapon() {
    let data = test_player_data();
    let mut p = Player::new(&data);
    let def = test_equip_def("鉄の剣", EquipCategoryDef::Weapon, 6);
    p.weapon = Some(Equipment::from_def("iron_sword", &def, 2));
    assert_eq!(p.effective_attack(), 8 + 8);
}

#[test]
fn player_effective_attack_with_boost() {
    let data = test_player_data();
    let mut p = Player::new(&data);
    let def = test_equip_def("木の剣", EquipCategoryDef::Weapon, 3);
    p.weapon = Some(Equipment::from_def("wooden_sword", &def, 0));
    p.status.attack_boost = Some((5, 10));
    assert_eq!(p.effective_attack(), 8 + 3 + 5);
}

#[test]
fn player_effective_defense_no_shield() {
    let data = test_player_data();
    let p = Player::new(&data);
    assert_eq!(p.effective_defense(), 5);
}

#[test]
fn player_effective_defense_with_shield() {
    let data = test_player_data();
    let mut p = Player::new(&data);
    let def = test_equip_def("鉄の盾", EquipCategoryDef::Shield, 5);
    p.shield = Some(Equipment::from_def("iron_shield", &def, 1));
    assert_eq!(p.effective_defense(), 5 + 6);
}

#[test]
fn player_inventory_full() {
    let data = test_player_data();
    let mut p = Player::new(&data);
    assert!(!p.inventory_full(data.max_inventory));
    let herb_def = test_item_def("回復草", ItemCategoryDef::Herb, ItemEffectDef::Heal(25));
    for _ in 0..data.max_inventory {
        p.inventory.push(Item::from_def("herb", &herb_def, None));
    }
    assert!(p.inventory_full(data.max_inventory));
}

#[test]
fn monster_from_stats_def() {
    let def = test_monster_def("スライム", 5, 2, 3, 4);
    let pos = Position::new(5, 5);
    let monster = Monster::from_stats_def(&def, pos);
    assert_eq!(monster.name, "スライム");
    assert_eq!(monster.hp, 5);
    assert_eq!(monster.pos, pos);
    assert!(monster.status.confused.is_none());
    assert!(!monster.status.paralyzed);
}

#[test]
fn equipment_display_name_negative_enhancement() {
    let e = Equipment {
        id: "cursed_sword".into(),
        name: "呪いの剣".into(),
        symbol: ')',
        category: EquipCategory::Weapon,
        base_value: 5,
        enhancement: -1,
    };
    assert_eq!(e.display_name(), "呪いの剣");
}

#[test]
fn player_inventory_not_full_at_19() {
    let data = test_player_data();
    let mut p = Player::new(&data);
    let herb_def = test_item_def("回復草", ItemCategoryDef::Herb, ItemEffectDef::Heal(25));
    for _ in 0..19 {
        p.inventory.push(Item::from_def("herb", &herb_def, None));
    }
    assert!(!p.inventory_full(data.max_inventory));
}

#[test]
fn staff_item_keeps_its_charges() {
    let def = test_item_def("かなしばりの杖", ItemCategoryDef::Staff, ItemEffectDef::Paralyze);
    let it = Item::from_def("paralysis_staff", &def, Some(4));
    assert!(matches!(it.category, ItemCategory::Staff(4)));
    let it0 = Item::from_def("paralysis_staff", &def, None);
    assert!(matches!(it0.category, ItemCategory::Staff(0)));
    assert!(matches!(it.effect, ItemEffect::Paralyze));
}

#[test]
fn item_effect_from_def_keeps_amounts() {
    assert!(matches!(ItemEffect::from_def(&ItemEffectDef::Heal(25)), ItemEffect::Heal(25)));
    assert!(matches!(
        ItemEffect::from_def(&ItemEffectDef::TempBoostAttack { amount: 5, turns: 20 }),
        ItemEffect::TempBoostAttack { amount: 5, turns: 20 }
    ));
}
