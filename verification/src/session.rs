use vstd::prelude::*;

use crate::game::entity::{Item, ItemCategory};
use crate::game::turn::{GameCommand, GameEvent};
use crate::text::{decimal, name_with, owned, push_decimal, push_text};

verus! {

/// The line that the message log shows for an event, if any.
pub open spec fn event_message(e: GameEvent) -> Option<Seq<char>> {
    match e {
        GameEvent::PlayerAttacked { target_name, damage } => Some(
            target_name@ + " に "@ + decimal(damage as int) + " ダメージを与えた"@,
        ),
        GameEvent::MonsterDefeated { name, exp } => Some(
            name@ + " を倒した！ 経験値 "@ + decimal(exp as int) + " 獲得"@,
        ),
        GameEvent::MonsterAttacked { name, damage } => Some(
            name@ + " の攻撃！ "@ + decimal(damage as int) + " ダメージを受けた"@,
        ),
        GameEvent::PlayerDamaged { amount, remaining_hp } => if remaining_hp <= 5 {
            Some("危険！ HPが残りわずか！"@)
        } else {
            None
        },
        GameEvent::ItemPickedUp { name } => Some(name@ + " を拾った"@),
        GameEvent::ItemUsed { name, effect_desc } => Some(name@ + " を使った。"@ + effect_desc@),
        GameEvent::EquipmentPickedUp { name } => Some(name@ + " を拾った"@),
        GameEvent::Equipped { name } => Some(name@ + " を装備した"@),
        GameEvent::InventoryFull => Some("持ち物がいっぱいだ"@),
        GameEvent::Starving => Some("お腹が空いて力が出ない... HPが減少している"@),
        GameEvent::LevelUp { new_level } => Some("レベルが "@ + decimal(new_level as int) + " に上がった！"@),
        GameEvent::FloorAdvance { new_floor } => Some(decimal(new_floor as int) + "階に降りた"@),
        GameEvent::ItemThrown { name, result_desc } => Some(name@ + "を投げた。"@ + result_desc@),
        GameEvent::PlayerHypnotized { monster_name, action_desc } => Some(
            monster_name@ + "に催眠をかけられた！"@ + action_desc@,
        ),
        GameEvent::Message(m) => Some(m@),
        _ => None,
    }
}

/// `a`, the number, then `b`.
fn around_number(a: &String, mid: &str, v: i64, b: &str) -> (s: String)
    requires
        v > i64::MIN,
    ensures
        s@ == a@ + mid@ + decimal(v as int) + b@,
{
    let mut s = name_with(a, mid);
    push_decimal(&mut s, v);
    push_text(&mut s, b);
    s
}

/// `a`, `mid`, then `b`.
fn joined(a: &String, mid: &str, b: &String) -> (s: String)
    ensures
        s@ == a@ + mid@ + b@,
{
    let mut s = name_with(a, mid);
    push_text(&mut s, b.as_str());
    s
}

pub fn event_to_message(event: &GameEvent) -> (m: Option<String>)
    ensures
        match m {
            Some(s) => event_message(*event) == Some(s@),
            None => event_message(*event) is None,
        },
{
    match event {
        GameEvent::PlayerAttacked { target_name, damage } => Some(
            around_number(target_name, " に ", *damage as i64, " ダメージを与えた"),
        ),
        GameEvent::MonsterDefeated { name, exp } => Some(around_number(name, " を倒した！ 経験値 ", *exp as i64, " 獲得")),
        GameEvent::MonsterAttacked { name, damage } => Some(
            around_number(name, " の攻撃！ ", *damage as i64, " ダメージを受けた"),
        ),
        GameEvent::PlayerDamaged { remaining_hp, .. } => {
            if *remaining_hp <= 5 {
                Some(owned("危険！ HPが残りわずか！"))
            } else {
                None
            }
        },
        GameEvent::ItemPickedUp { name } => Some(name_with(name, " を拾った")),
        GameEvent::ItemUsed { name, effect_desc } => Some(joined(name, " を使った。", effect_desc)),
        GameEvent::EquipmentPickedUp { name } => Some(name_with(name, " を拾った")),
        GameEvent::Equipped { name } => Some(name_with(name, " を装備した")),
        GameEvent::InventoryFull => Some(owned("持ち物がいっぱいだ")),
        GameEvent::Starving => Some(owned("お腹が空いて力が出ない... HPが減少している")),
        GameEvent::LevelUp { new_level } => {
            let mut s = owned("レベルが ");
            push_decimal(&mut s, *new_level as i64);
            push_text(&mut s, " に上がった！");
            Some(s)
        },
        GameEvent::FloorAdvance { new_floor } => {
            let mut s = owned("");
            push_decimal(&mut s, *new_floor as i64);
            push_text(&mut s, "階に降りた");
            proof {
                reveal_strlit("");
                assert(s@ =~= decimal(*new_floor as int) + "階に降りた"@);
            }
            Some(s)
        },
        GameEvent::ItemThrown { name, result_desc } => Some(joined(name, "を投げた。", result_desc)),
        GameEvent::PlayerHypnotized { monster_name, action_desc } => Some(
            joined(monster_name, "に催眠をかけられた！", action_desc),
        ),
        GameEvent::Message(msg) => Some(msg.clone()),
        _ => None,
    }
}

/// The command that choosing an inventory item makes: wear a weapon or a shield, wave a
/// staff, use anything else.
pub open spec fn item_command(it: Item, idx: usize) -> GameCommand {
    match it.category {
        ItemCategory::Weapon => GameCommand::EquipWeapon(idx),
        ItemCategory::Shield => GameCommand::EquipShield(idx),
        ItemCategory::Staff(_) => GameCommand::UseStaff(idx),
        _ => GameCommand::UseItem(idx),
    }
}

pub fn inventory_command(item: &Item, idx: usize) -> (c: GameCommand)
    ensures
        c == item_command(*item, idx),
{
    match item.category {
        ItemCategory::Weapon => GameCommand::EquipWeapon(idx),
        ItemCategory::Shield => GameCommand::EquipShield(idx),
        ItemCategory::Staff(_) => GameCommand::UseStaff(idx),
        _ => GameCommand::UseItem(idx),
    }
}

/// What the game loop does after a command, judged from its events.
#[derive(Clone, Copy, Debug)]
pub enum TurnOutcome {
    ShowInventory,
    ShowThrowInventory,
    GameOver,
    GameClear,
    Continue,
}

pub open spec fn has_event(ev: Seq<GameEvent>, f: spec_fn(GameEvent) -> bool) -> bool {
    exists|k: int| 0 <= k < ev.len() && f(#[trigger] ev[k])
}

/// An inventory request opens the inventory; else a throw request opens the throw screen;
/// else a game over or a game clear ends the game; else play goes on.
pub open spec fn spec_turn_outcome(ev: Seq<GameEvent>) -> TurnOutcome {
    if has_event(ev, |e: GameEvent| e is RequestInventory) {
        TurnOutcome::ShowInventory
    } else if has_event(ev, |e: GameEvent| e is RequestThrowInventory) {
        TurnOutcome::ShowThrowInventory
    } else if has_event(ev, |e: GameEvent| e is GameOver) {
        TurnOutcome::GameOver
    } else if has_event(ev, |e: GameEvent| e is GameClear) {
        TurnOutcome::GameClear
    } else {
        TurnOutcome::Continue
    }
}

pub fn turn_outcome(events: &Vec<GameEvent>) -> (o: TurnOutcome)
    ensures
        o == spec_turn_outcome(events@),
{
    let mut inv = false;
    let mut throw = false;
    let mut over = false;
    let mut clear = false;
    let mut i: usize = 0;
    while i < events.len()
        invariant
            i <= events@.len(),
            inv == has_event(events@.take(i as int), |e: GameEvent| e is RequestInventory),
            throw == has_event(events@.take(i as int), |e: GameEvent| e is RequestThrowInventory),
            over == has_event(events@.take(i as int), |e: GameEvent| e is GameOver),
            clear == has_event(events@.take(i as int), |e: GameEvent| e is GameClear),
        decreases events@.len() - i,
    {
        let ghost t0 = events@.take(i as int);
        let ghost t1 = events@.take(i + 1);
        proof {
            assert forall|k: int| 0 <= k < t0.len() implies t1[k] == t0[k] by {}
            assert(t1[i as int] == events@[i as int]);
        }
        match events[i] {
            GameEvent::RequestInventory => {
                inv = true;
            },
            GameEvent::RequestThrowInventory => {
                throw = true;
            },
            GameEvent::GameOver => {
                over = true;
            },
            GameEvent::GameClear => {
                clear = true;
            },
            _ => {},
        }
        proof {
            assert(inv == has_event(t1, |e: GameEvent| e is RequestInventory)) by {
                if has_event(t1, |e: GameEvent| e is RequestInventory) {
                    let k = choose|k: int| 0 <= k < t1.len() && (|e: GameEvent| e is RequestInventory)(#[trigger] t1[k]);
                    if k < t0.len() {
                        assert(t0[k] == t1[k]);
                    }
                }
            }
            assert(throw == has_event(t1, |e: GameEvent| e is RequestThrowInventory)) by {
                if has_event(t1, |e: GameEvent| e is RequestThrowInventory) {
                    let k = choose|k: int| 0 <= k < t1.len() && (|e: GameEvent| e is RequestThrowInventory)(#[trigger] t1[k]);
                    if k < t0.len() {
                        assert(t0[k] == t1[k]);
                    }
                }
            }
            assert(over == has_event(t1, |e: GameEvent| e is GameOver)) by {
                if has_event(t1, |e: GameEvent| e is GameOver) {
                    let k = choose|k: int| 0 <= k < t1.len() && (|e: GameEvent| e is GameOver)(#[trigger] t1[k]);
                    if k < t0.len() {
                        assert(t0[k] == t1[k]);
                    }
                }
            }
            assert(clear == has_event(t1, |e: GameEvent| e is GameClear)) by {
                if has_event(t1, |e: GameEvent| e is GameClear) {
                    let k = choose|k: int| 0 <= k < t1.len() && (|e: GameEvent| e is GameClear)(#[trigger] t1[k]);
                    if k < t0.len() {
                        assert(t0[k] == t1[k]);
                    }
                }
            }
        }
        i = i + 1;
    }
    assert(events@.take(events@.len() as int) =~= events@);
    if inv {
        TurnOutcome::ShowInventory
    } else if throw {
        TurnOutcome::ShowThrowInventory
    } else if over {
        TurnOutcome::GameOver
    } else if clear {
        TurnOutcome::GameClear
    } else {
        TurnOutcome::Continue
    }
}

} // verus!
