use vstd::prelude::*;

use super::dungeon::{
    attack_post, equipment_to_item, fullness_post,
    is_equipment_item, is_item_equipment, item_ok, item_to_equipment, monster_coord_ok, monsters_post,
    offset_pos, pickup_post, same_but_player, same_floor, shifted, spec_monster_at, throw_post,
    use_item_post, use_staff_post, vis_updated, GameState,
};
use super::entity::{spec_tick, EquipCategory, Monster, Player};
use super::spawning::{playable, populated, spawnable};
use super::turn::{GameCommand, GameEvent, TurnError};
use super::types::{Direction, Position};
use super::visibility::spec_sees;
use crate::map::generator::{dungeon_layout, generate, Area, Point, MAP_HEIGHT, MAP_WIDTH};

use crate::map::reach::floor_connected;
verus! {

/// Wearing inventory item `idx` as `category`: it leaves the inventory, the piece worn
/// before (if any) goes back to the inventory as an item, and an `Equipped` event names it.
pub open spec fn equip_post(
    pre: GameState,
    post: GameState,
    idx: int,
    category: EquipCategory,
    ev0: Seq<GameEvent>,
    ev1: Seq<GameEvent>,
) -> bool {
    let p = pre.player;
    let it = p.inventory@[idx];
    let inv1 = p.inventory@.remove(idx);
    let worn = match category {
        EquipCategory::Weapon => p.weapon,
        EquipCategory::Shield => p.shield,
    };
    let now = match category {
        EquipCategory::Weapon => post.player.weapon,
        EquipCategory::Shield => post.player.shield,
    };
    &&& match worn {
        Some(o) => post.player.inventory@.len() == inv1.len() + 1 && post.player.inventory@.drop_last() == inv1
            && is_equipment_item(post.player.inventory@.last(), o),
        None => post.player.inventory@ == inv1,
    }
    &&& now matches Some(e) && is_item_equipment(e, it, category)
    &&& post.player == match category {
        EquipCategory::Weapon => Player {
            inventory: post.player.inventory,
            weapon: post.player.weapon,
            ..p
        },
        EquipCategory::Shield => Player {
            inventory: post.player.inventory,
            shield: post.player.shield,
            ..p
        },
    }
    &&& same_but_player(pre, post)
    &&& ev1 == ev0.push(GameEvent::Equipped { name: it.name })
}

/// The statuses of the player and of every monster after one turn.
pub open spec fn ticked(pre: GameState, post: GameState) -> bool {
    &&& post.player == (Player { status: spec_tick(pre.player.status), ..pre.player })
    &&& post.monsters@.len() == pre.monsters@.len()
    &&& forall|k: int|
        0 <= k < pre.monsters@.len() ==> #[trigger] post.monsters@[k] == (Monster {
            status: spec_tick(pre.monsters@[k].status),
            ..pre.monsters@[k]
        })
    &&& same_floor(pre, post)
}


/// The state with the player turned toward `dir`.
pub open spec fn facing(pre: GameState, dir: Direction) -> GameState {
    GameState { player: Player { direction: dir, ..pre.player }, ..pre }
}

/// The cell one step from the player toward `dir`.
pub open spec fn move_target(pre: GameState, dir: Direction) -> Position {
    shifted(pre.player.pos, offset_pos(dir))
}

/// The player has stepped onto `target` and looked around; nothing else changed.
pub open spec fn stepped(s0: GameState, target: Position, mid: GameState) -> bool {
    &&& mid.player == (Player { pos: target, ..s0.player })
    &&& mid.monsters == s0.monsters
    &&& mid.floor_items == s0.floor_items
    &&& mid.floor_equips == s0.floor_equips
    &&& mid.map == s0.map
    &&& mid.floor == s0.floor
    &&& mid.turn == s0.turn
    &&& mid.data == s0.data
    &&& vis_updated(s0.visibility, s0.visibility.full_map, mid.visibility, s0.map, target)
}

/// A step onto a free cell: a `PlayerMoved` event, then whatever lies there is picked up.
pub open spec fn walk_post(s0: GameState, target: Position, post: GameState, ev0: Seq<GameEvent>, ev1: Seq<GameEvent>) -> bool {
    exists|mid: GameState|
        #[trigger] stepped(s0, target, mid) && pickup_post(
            mid,
            post,
            ev0.push(GameEvent::PlayerMoved { from: s0.player.pos, to: target }),
            ev1,
        )
}

/// A move that does not reach the exit: the player turns, then attacks the monster in the
/// way, or steps onto a walkable cell, or stays put before a wall.
pub open spec fn move_post(pre: GameState, dir: Direction, post: GameState, ev1: Seq<GameEvent>) -> bool {
    let s0 = facing(pre, dir);
    let t = move_target(pre, dir);
    match spec_monster_at(pre.monsters@, t) {
        Some(mi) => attack_post(s0, post, mi, seq![], ev1),
        None => if pre.map.spec_is_walkable(t) {
            walk_post(s0, t, post, seq![], ev1)
        } else {
            post == s0 && ev1 == Seq::<GameEvent>::empty()
        },
    }
}

/// A move onto the exit ends the turn at once: past the last floor the game is cleared;
/// otherwise a new floor is generated and populated, and the player sees it afresh.
pub open spec fn floor_post(pre: GameState, post: GameState, ev: Seq<GameEvent>) -> bool {
    let f = (pre.floor + 1) as u32;
    if f > pre.data.map.max_floor {
        post == (GameState { floor: f, ..pre }) && ev == seq![GameEvent::GameClear]
    } else {
        &&& post.floor == f
        &&& post.turn == pre.turn
        &&& post.data == pre.data
        &&& post.map.wf()
        &&& post.map.width == MAP_WIDTH
        &&& post.map.height == MAP_HEIGHT
        &&& post.map.spec_is_exit(post.map.exit_pos)
        &&& floor_connected(post.map)
        &&& exists|areas: Seq<Area>, cells: Seq<Point>| #[trigger] dungeon_layout(post.map, areas, cells)
        &&& post.player == (Player { pos: post.player.pos, ..pre.player })
        &&& populated(post)
        &&& !post.visibility.full_map
        &&& forall|p: Position| #[trigger] post.visibility.visible@.contains(p) <==> spec_sees(false, post.map, post.player.pos, p)
        &&& forall|p: Position| #[trigger] post.visibility.visited@.contains(p) <==> post.visibility.visible@.contains(p)
        &&& ev == seq![GameEvent::FloorAdvance { new_floor: f }]
    }
}

/// The inventory index that a command names, if any.
pub open spec fn inventory_index(c: GameCommand) -> Option<usize> {
    match c {
        GameCommand::UseItem(i) => Some(i),
        GameCommand::UseStaff(i) => Some(i),
        GameCommand::EquipWeapon(i) => Some(i),
        GameCommand::EquipShield(i) => Some(i),
        GameCommand::ThrowItem(i) => Some(i),
        _ => None,
    }
}

/// The player's action of a turn-consuming command.
pub open spec fn action_post(pre: GameState, cmd: GameCommand, post: GameState, ev1: Seq<GameEvent>) -> bool {
    let ev0 = Seq::<GameEvent>::empty();
    match cmd {
        GameCommand::Move(dir) => move_post(pre, dir, post, ev1),
        GameCommand::UseItem(i) => use_item_post(pre, post, i as int, ev0, ev1),
        GameCommand::UseStaff(i) => use_staff_post(pre, post, i as int, ev0, ev1),
        GameCommand::EquipWeapon(i) => equip_post(pre, post, i as int, EquipCategory::Weapon, ev0, ev1),
        GameCommand::EquipShield(i) => equip_post(pre, post, i as int, EquipCategory::Shield, ev0, ev1),
        GameCommand::ThrowItem(i) => throw_post(pre, post, i as int, ev0, ev1),
        _ => post == pre && ev1 == ev0,
    }
}

/// Hunger after the player's action.
pub open spec fn hunger_step(s1: GameState, e1: Seq<GameEvent>, s2: GameState, e2: Seq<GameEvent>) -> bool {
    &&& fullness_post(s1.data.balance, s1.player, s2.player, e1, e2)
    &&& s2.monsters == s1.monsters
    &&& same_floor(s1, s2)
}

/// The end of a turn: statuses count down and the turn counter grows by one.
pub open spec fn turn_end(s3: GameState, post: GameState) -> bool {
    ticked(s3, GameState { turn: s3.turn, ..post }) && post.turn == s3.turn + 1
}

/// What follows the player's action in a turn: hunger; a player dead of it ends the game at
/// once; else the monsters act, a `GameOver` follows if they killed the player, and the
/// turn ends.
pub open spec fn rest_of_turn(s1: GameState, e1: Seq<GameEvent>, post: GameState, ev: Seq<GameEvent>) -> bool {
    exists|s2: GameState, e2: Seq<GameEvent>|
        #[trigger] hunger_step(s1, e1, s2, e2) && if s2.player.hp <= 0 {
            post == s2 && ev == e2.push(GameEvent::GameOver)
        } else {
            exists|s3: GameState, e3: Seq<GameEvent>|
                #[trigger] monsters_post(s2, s3, e2, e3) && turn_end(s3, post) && ev == (if s3.player.hp <= 0 {
                    e3.push(GameEvent::GameOver)
                } else {
                    e3
                })
        }
}

/// The command gave `Ok` with these events.
pub open spec fn ok_with(r: Result<Vec<GameEvent>, TurnError>, evs: Seq<GameEvent>) -> bool {
    r matches Ok(ev) && ev@ == evs
}

/// A turn-consuming command: the player's action, then the rest of the turn.
pub open spec fn acted(pre: GameState, cmd: GameCommand, post: GameState, r: Result<Vec<GameEvent>, TurnError>) -> bool {
    r matches Ok(ev) && exists|s1: GameState, e1: Seq<GameEvent>|
        #[trigger] action_post(pre, cmd, s1, e1) && rest_of_turn(s1, e1, post, ev@)
}

/// A command with a valid inventory index, or none.
pub open spec fn played(pre: GameState, cmd: GameCommand, post: GameState, r: Result<Vec<GameEvent>, TurnError>) -> bool {
    match cmd {
        GameCommand::Move(dir) => if spec_monster_at(pre.monsters@, move_target(pre, dir)) is None
            && pre.map.spec_is_exit(move_target(pre, dir)) {
            r matches Ok(ev) && floor_post(facing(pre, dir), post, ev@)
        } else {
            acted(pre, cmd, post, r)
        },
        _ => acted(pre, cmd, post, r),
    }
}

/// One command of the player, from `pre` to `post`, with its result: quitting and opening
/// an inventory change nothing, turning only turns the player, an inventory index past the
/// end is refused with the state unchanged, and any other command plays a turn.
pub open spec fn turn_post(pre: GameState, cmd: GameCommand, post: GameState, r: Result<Vec<GameEvent>, TurnError>) -> bool {
    match cmd {
        GameCommand::Quit => post == pre && ok_with(r, Seq::<GameEvent>::empty()),
        GameCommand::OpenInventory => post == pre && ok_with(r, seq![GameEvent::RequestInventory]),
        GameCommand::OpenThrowInventory => post == pre && ok_with(r, seq![GameEvent::RequestThrowInventory]),
        GameCommand::Turn(dir) => post == facing(pre, dir) && ok_with(r, Seq::<GameEvent>::empty()),
        _ => match inventory_index(cmd) {
            Some(i) => if i >= pre.player.inventory@.len() {
                post == pre && r == Err::<Vec<GameEvent>, TurnError>(TurnError::InvalidInventoryIndex(i))
            } else {
                played(pre, cmd, post, r)
            },
            None => played(pre, cmd, post, r),
        },
    }
}

proof fn lemma_limits_action_bounds(s: GameState)
    requires
        s.limits(),
    ensures
        s.action_bounds(),
{
    super::dungeon::lemma_limits_attacks(s);
}

impl GameState {
    /// Leaves the floor by its exit.
    fn advance_floor(&mut self) -> (ev: Vec<GameEvent>)
        requires
            old(self).wf(),
            old(self).limits(),
            playable(*old(self).data),
        ensures
            floor_post(*old(self), *final(self), ev@),
            final(self).wf(),
            final(self).data == old(self).data,
    {
        let mut events: Vec<GameEvent> = Vec::new();
        self.floor = self.floor + 1;
        if self.floor > self.data.map.max_floor {
            events.push(GameEvent::GameClear);
            return events;
        }
        events.push(GameEvent::FloorAdvance { new_floor: self.floor });
        self.map = generate();
        self.visibility.reset_for_new_floor();
        proof {
            assert(spawnable(*self.data, self.floor));
        }
        self.spawn_entities();
        self.visibility.update(&self.player.pos, &self.map);
        events
    }

    /// Hunger, the monsters' turns, and the end of the turn.
    fn finish_turn(&mut self, events: Vec<GameEvent>) -> (ev: Vec<GameEvent>)
        requires
            old(self).wf(),
            old(self).action_bounds(),
        ensures
            rest_of_turn(*old(self), events@, *final(self), ev@),
            final(self).wf(),
            final(self).data == old(self).data,
    {
        let mut events = events;
        let ghost e1 = events@;
        self.process_fullness(&mut events);
        let ghost s2 = *self;
        let ghost e2 = events@;
        proof {
            assert(hunger_step(*old(self), e1, s2, e2));
        }
        if self.player.hp <= 0 {
            events.push(GameEvent::GameOver);
            return events;
        }
        self.process_monster_turns(&mut events);
        let ghost s3 = *self;
        let ghost e3 = events@;
        if self.player.hp <= 0 {
            events.push(GameEvent::GameOver);
        }
        self.tick_statuses();
        self.turn = self.turn + 1;
        proof {
            assert(turn_end(s3, *self));
            assert forall|k: int| 0 <= k < self.monsters@.len() implies monster_coord_ok(#[trigger] self.monsters@[k].pos) by {
                assert(self.monsters@[k].pos == s3.monsters@[k].pos);
            }
        }
        events
    }
}

impl GameState {
    pub fn equip_item(&mut self, idx: usize, category: EquipCategory, events: &mut Vec<GameEvent>)
        requires
            old(self).wf(),
            old(self).limits(),
            idx < old(self).player.inventory@.len(),
        ensures
            equip_post(*old(self), *final(self), idx as int, category, old(events)@, final(events)@),
            final(self).wf(),
            final(self).action_bounds(),
    {
        proof {
            assert(item_ok(self.player.inventory@[idx as int]));
            super::dungeon::lemma_limits_attacks(*self);
        }
        let ghost inv1 = self.player.inventory@.remove(idx as int);
        let item = self.player.inventory.remove(idx);
        let back = match category {
            EquipCategory::Weapon => match &self.player.weapon {
                Some(o) => Some(equipment_to_item(o)),
                None => None,
            },
            EquipCategory::Shield => match &self.player.shield {
                Some(o) => Some(equipment_to_item(o)),
                None => None,
            },
        };
        if let Some(b) = back {
            self.player.inventory.push(b);
            proof {
                assert(self.player.inventory@.drop_last() =~= inv1);
            }
        }
        let name = item.name.clone();
        let e = item_to_equipment(&item, category);
        match category {
            EquipCategory::Weapon => {
                self.player.weapon = Some(e);
            },
            EquipCategory::Shield => {
                self.player.shield = Some(e);
            },
        }
        events.push(GameEvent::Equipped { name });
    }

    /// Counts down the statuses of the player and of every monster.
    pub fn tick_statuses(&mut self)
        ensures
            ticked(*old(self), *final(self)),
    {
        self.player.status.tick();
        let n = self.monsters.len();
        let mut i: usize = 0;
        while i < n
            invariant
                n == old(self).monsters@.len(),
                n == self.monsters@.len(),
                i <= n,
                self.player == (Player { status: spec_tick(old(self).player.status), ..old(self).player }),
                same_floor(*old(self), *self),
                forall|k: int|
                    0 <= k < i ==> #[trigger] self.monsters@[k] == (Monster {
                        status: spec_tick(old(self).monsters@[k].status),
                        ..old(self).monsters@[k]
                    }),
                forall|k: int| i <= k < n ==> #[trigger] self.monsters@[k] == old(self).monsters@[k],
            decreases n - i,
        {
            let mut st = self.monsters[i].status;
            st.tick();
            self.monsters[i].status = st;
            i = i + 1;
        }
    }
}

impl GameState {
    /// Plays one command of the player.
    #[verifier::rlimit(100)]
    #[verifier::spinoff_prover]
    pub fn process_turn(&mut self, command: GameCommand) -> (r: Result<Vec<GameEvent>, TurnError>)
        requires
            old(self).wf(),
            old(self).limits(),
            playable(*old(self).data),
        ensures
            turn_post(*old(self), command, *final(self), r),
            final(self).wf(),
            final(self).data == old(self).data,
    {
        let mut events: Vec<GameEvent> = Vec::new();
        proof {
            lemma_limits_action_bounds(*self);
        }
        match command {
            GameCommand::Quit => {
                return Ok(events);
            },
            GameCommand::OpenInventory => {
                events.push(GameEvent::RequestInventory);
                return Ok(events);
            },
            GameCommand::OpenThrowInventory => {
                events.push(GameEvent::RequestThrowInventory);
                return Ok(events);
            },
            GameCommand::Turn(dir) => {
                self.player.direction = dir;
                return Ok(events);
            },
            GameCommand::Wait => {},
            GameCommand::Move(dir) => {
                self.player.direction = dir;
                proof {
                    assert(*self == facing(*old(self), dir));
                    lemma_limits_action_bounds(*self);
                }
                let off = dir.to_offset();
                let target = self.player.pos.plus(&off);
                proof {
                    assert(target == move_target(*old(self), dir));
                }
                match self.monster_at(&target) {
                    Some(mi) => {
                        self.attack_monster(mi, &mut events);
                    },
                    None => {
                        if self.map.is_exit(&target) {
                            let ev = self.advance_floor();
                            return Ok(ev);
                        } else if self.map.is_walkable(&target) {
                            let ghost s0 = *self;
                            let from = self.player.pos;
                            self.player.pos = target;
                            self.visibility.update(&self.player.pos, &self.map);
                            events.push(GameEvent::PlayerMoved { from, to: target });
                            let ghost mid = *self;
                            proof {
                                assert(stepped(s0, target, mid));
                            }
                            self.check_pickup(&mut events);
                            proof {
                                assert(events@.len() >= 0);
                                assert(walk_post(s0, target, *self, Seq::<GameEvent>::empty(), events@)) by {
                                    assert(Seq::<GameEvent>::empty().push(GameEvent::PlayerMoved { from, to: target })
                                        =~= mid_events(from, target));
                                }
                            }
                        }
                    },
                }
            },
            GameCommand::UseItem(idx) => {
                if idx >= self.player.inventory.len() {
                    return Err(TurnError::InvalidInventoryIndex(idx));
                }
                self.use_item(idx, &mut events);
            },
            GameCommand::UseStaff(idx) => {
                if idx >= self.player.inventory.len() {
                    return Err(TurnError::InvalidInventoryIndex(idx));
                }
                self.use_staff(idx, &mut events);
            },
            GameCommand::EquipWeapon(idx) => {
                if idx >= self.player.inventory.len() {
                    return Err(TurnError::InvalidInventoryIndex(idx));
                }
                self.equip_item(idx, EquipCategory::Weapon, &mut events);
            },
            GameCommand::EquipShield(idx) => {
                if idx >= self.player.inventory.len() {
                    return Err(TurnError::InvalidInventoryIndex(idx));
                }
                self.equip_item(idx, EquipCategory::Shield, &mut events);
            },
            GameCommand::ThrowItem(idx) => {
                if idx >= self.player.inventory.len() {
                    return Err(TurnError::InvalidInventoryIndex(idx));
                }
                self.throw_item(idx, &mut events);
            },
        }
        let ghost s1 = *self;
        let ghost e1 = events@;
        proof {
            assert(action_post(*old(self), command, s1, e1));
        }
        let ev = self.finish_turn(events);
        proof {
            assert(rest_of_turn(s1, e1, *self, ev@));
        }
        Ok(ev)
    }
}

pub open spec fn mid_events(from: Position, to: Position) -> Seq<GameEvent> {
    seq![GameEvent::PlayerMoved { from, to }]
}

} // verus!
