use ayz::game::entity::{Item, ItemCategory, ItemEffect};
use ayz::game::turn::{GameCommand, GameEvent};
use ayz::game::types::{Direction, Position};
use ayz::session::{event_to_message, inventory_command, turn_outcome, TurnOutcome};
use ayz::ui::input::{command_for_key, Key};
use ayz::ui::renderer::{dim_char, inventory_choice, next_level_exp, InventoryAction, MessageLog};

#[test]
fn messages_for_combat_events() {
    let m = event_to_message(&GameEvent::PlayerAttacked { target_name: "スライム".into(), damage: 5 });
    assert_eq!(m.as_deref(), Some("スライム に 5 ダメージを与えた"));
    let m = event_to_message(&GameEvent::MonsterDefeated { name: "スライム".into(), exp: 4 });
    assert_eq!(m.as_deref(), Some("スライム を倒した！ 経験値 4 獲得"));
    let m = event_to_message(&GameEvent::MonsterAttacked { name: "ゴブリン".into(), damage: -3 });
    assert_eq!(m.as_deref(), Some("ゴブリン の攻撃！ -3 ダメージを受けた"));
}

#[test]
fn low_hp_warning_only_at_five_or_less() {
    assert_eq!(
        event_to_message(&GameEvent::PlayerDamaged { amount: 3, remaining_hp: 5 }).as_deref(),
        Some("危険！ HPが残りわずか！")
    );
    assert!(event_to_message(&GameEvent::PlayerDamaged { amount: 3, remaining_hp: 6 }).is_none());
}

#[test]
fn messages_for_items_and_floors() {
    assert_eq!(event_to_message(&GameEvent::FloorAdvance { new_floor: 3 }).as_deref(), Some("3階に降りた"));
    assert_eq!(event_to_message(&GameEvent::LevelUp { new_level: 2 }).as_deref(), Some("レベルが 2 に上がった！"));
    assert_eq!(
        event_to_message(&GameEvent::ItemUsed { name: "回復草".into(), effect_desc: "HPが25回復した".into() }).as_deref(),
        Some("回復草 を使った。HPが25回復した")
    );
    assert_eq!(
        event_to_message(&GameEvent::ItemThrown { name: "回復草".into(), result_desc: "地面に落ちた".into() }).as_deref(),
        Some("回復草を投げた。地面に落ちた")
    );
    assert_eq!(event_to_message(&GameEvent::InventoryFull).as_deref(), Some("持ち物がいっぱいだ"));
    assert_eq!(event_to_message(&GameEvent::Message("x".into())).as_deref(), Some("x"));
    assert!(event_to_message(&GameEvent::GameOver).is_none());
    assert!(event_to_message(&GameEvent::PlayerMoved { from: Position::zero(), to: Position::new(1, 0) }).is_none());
}

fn item(category: ItemCategory) -> Item {
    Item { id: "x".into(), name: "x".into(), symbol: '!', category, effect: ItemEffect::HealFull, equip_data: None }
}

#[test]
fn inventory_command_by_category() {
    assert!(matches!(inventory_command(&item(ItemCategory::Weapon), 2), GameCommand::EquipWeapon(2)));
    assert!(matches!(inventory_command(&item(ItemCategory::Shield), 1), GameCommand::EquipShield(1)));
    assert!(matches!(inventory_command(&item(ItemCategory::Staff(3)), 0), GameCommand::UseStaff(0)));
    assert!(matches!(inventory_command(&item(ItemCategory::Herb), 4), GameCommand::UseItem(4)));
}

#[test]
fn turn_outcome_priorities() {
    assert!(matches!(turn_outcome(&vec![GameEvent::GameOver, GameEvent::RequestInventory]), TurnOutcome::ShowInventory));
    assert!(matches!(turn_outcome(&vec![GameEvent::RequestThrowInventory]), TurnOutcome::ShowThrowInventory));
    assert!(matches!(turn_outcome(&vec![GameEvent::Starving, GameEvent::GameOver]), TurnOutcome::GameOver));
    assert!(matches!(turn_outcome(&vec![GameEvent::GameClear]), TurnOutcome::GameClear));
    assert!(matches!(turn_outcome(&vec![GameEvent::Starving]), TurnOutcome::Continue));
    assert!(matches!(turn_outcome(&vec![]), TurnOutcome::Continue));
}

#[test]
fn keys_map_to_commands() {
    assert!(matches!(command_for_key(Key::Char('h'), false), Some(GameCommand::Move(Direction::Left))));
    assert!(matches!(command_for_key(Key::Char('H'), true), Some(GameCommand::Turn(Direction::Left))));
    assert!(matches!(command_for_key(Key::Up, true), Some(GameCommand::Turn(Direction::Up))));
    assert!(matches!(command_for_key(Key::Up, false), Some(GameCommand::Move(Direction::Up))));
    assert!(matches!(command_for_key(Key::Char('m'), false), Some(GameCommand::Move(Direction::DownRight))));
    assert!(matches!(command_for_key(Key::Char('.'), false), Some(GameCommand::Wait)));
    assert!(matches!(command_for_key(Key::Char('t'), false), Some(GameCommand::OpenThrowInventory)));
    assert!(matches!(command_for_key(Key::Char('q'), false), Some(GameCommand::Quit)));
    assert!(command_for_key(Key::Char('z'), false).is_none());
    assert!(command_for_key(Key::Esc, false).is_none());
}

#[test]
fn inventory_keys() {
    assert!(matches!(inventory_choice(Key::Char('b'), 3, false), Some(InventoryAction::Use(1))));
    assert!(matches!(inventory_choice(Key::Char('c'), 3, true), Some(InventoryAction::Throw(2))));
    assert!(inventory_choice(Key::Char('d'), 3, false).is_none());
    assert!(matches!(inventory_choice(Key::Esc, 3, false), Some(InventoryAction::Cancel)));
    assert!(matches!(inventory_choice(Key::Char('i'), 3, false), Some(InventoryAction::Cancel)));
    assert!(matches!(inventory_choice(Key::Char('t'), 30, true), Some(InventoryAction::Cancel)));
    assert!(matches!(inventory_choice(Key::Char('t'), 30, false), Some(InventoryAction::Use(19))));
    assert!(inventory_choice(Key::Char('A'), 30, false).is_none());
}

#[test]
fn next_level_exp_table() {
    assert_eq!(next_level_exp(1), 30);
    assert_eq!(next_level_exp(4), 200);
    assert_eq!(next_level_exp(5), 999);
    assert_eq!(next_level_exp(-1), 999);
}

#[test]
fn dim_chars() {
    assert_eq!(dim_char('.'), ':');
    assert_eq!(dim_char('-'), ';');
    assert_eq!(dim_char('+'), '+');
    assert_eq!(dim_char('#'), ' ');
}

#[test]
fn message_log_keeps_the_latest() {
    let mut log = MessageLog::new(2);
    log.push("a".into());
    log.push("b".into());
    log.push("c".into());
    assert_eq!(log.lines, vec!["b".to_string(), "c".to_string()]);
}
