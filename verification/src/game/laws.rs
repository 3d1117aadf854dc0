use vstd::prelude::*;

use super::dungeon::{
    chase_target, chase_try, free_step, knock, level_up_post, monster_coord_ok, monster_step, placed, shifted, sign,
    spec_level_up_entry, attack_post, defeat_post_with, herb_on_monster, offset_pos, spec_damage, spec_monster_at, throw_landing,
    use_item_post, vis_updated, wounded, GameState, ThrowLanding,
};
use super::entity::{ItemEffect, Monster, Player};
use super::master_data::{BalanceData, LevelEntry};
use super::play::{
    acted, action_post, facing, hunger_step, inventory_index, move_target, rest_of_turn, stepped, turn_end,
    turn_post,
};
use super::spawning::{drawn_for, entity_cells, max_draws, misplaced, populated, room_free};
use super::turn::{GameCommand, GameEvent, TurnError};
use super::types::Position;
use super::visibility::{in_square, is_neighbour, Visibility};
use crate::map::cell::GameMap;

verus! {

/// The free room cells of a map: its room cells other than the exit.
pub open spec fn free_room_cells(map: GameMap) -> Set<Position> {
    Set::new(|q: Position| room_free(map, q))
}

/// On a populated floor whose free room cells outnumber the cells that populating it may
/// draw, the monsters, the floor items, the floor equipment and the player stand on
/// pairwise distinct room cells, none of them the exit: an entity is misplaced only when
/// the free room cells are no more than those draws.
pub proof fn law_populated_floor_spreads(s: GameState)
    requires
        populated(s),
    ensures
        misplaced(s.map, entity_cells(s)) ==> free_room_cells(s.map).finite() && free_room_cells(s.map).len()
            <= max_draws(*s.data, s.floor),
{
    let drawn = choose|drawn: Seq<Position>|
        drawn.len() <= max_draws(*s.data, s.floor) && #[trigger] drawn_for(s.map, entity_cells(s), drawn);
    if misplaced(s.map, entity_cells(s)) {
        let free = free_room_cells(s.map);
        assert(free.subset_of(drawn.to_set())) by {
            assert forall|q: Position| free.contains(q) implies drawn.to_set().contains(q) by {
                assert(room_free(s.map, q));
            }
        }
        vstd::seq_lib::seq_to_set_is_finite(drawn);
        vstd::set_lib::lemma_len_subset(free, drawn.to_set());
        drawn.lemma_cardinality_of_set();
    }
}

/// A blow never deals less than the minimum damage.
pub proof fn law_damage_at_least_minimum(min_damage: int, attack: int, defense: int)
    ensures
        spec_damage(min_damage, attack, defense) >= min_damage,
        attack - defense > min_damage ==> spec_damage(min_damage, attack, defense) == attack - defense,
{
}

/// The Manhattan distance is symmetric and zero from a cell to itself.
pub proof fn law_manhattan_symmetric(a: Position, b: Position)
    ensures
        a.spec_manhattan(b) == b.spec_manhattan(a),
        a.spec_manhattan(a) == 0,
        a.spec_manhattan(b) >= 0,
{
}

/// After the player looks around, every cell in view is remembered as visited.
pub proof fn law_visible_cells_are_visited(v0: Visibility, full: bool, v1: Visibility, map: GameMap, pos: Position)
    requires
        vis_updated(v0, full, v1, map, pos),
    ensures
        forall|p: Position| v1.visible@.contains(p) ==> #[trigger] v1.visited@.contains(p),
        forall|p: Position| v0.visited@.contains(p) ==> #[trigger] v1.visited@.contains(p),
{
}

/// The looks around `vs[k]` to `vs[k + 1]`, each from cell `ps[k]` of map `maps[k]` with
/// full-map vision `fulls[k]`.
pub open spec fn looks_around(vs: Seq<Visibility>, fulls: Seq<bool>, maps: Seq<GameMap>, ps: Seq<Position>) -> bool {
    &&& vs.len() == ps.len() + 1
    &&& fulls.len() == ps.len()
    &&& maps.len() == ps.len()
    &&& forall|k: int| 0 <= k < ps.len() ==> #[trigger] vis_updated(vs[k], fulls[k], vs[k + 1], maps[k], ps[k])
}

proof fn lemma_visited_kept(vs: Seq<Visibility>, fulls: Seq<bool>, maps: Seq<GameMap>, ps: Seq<Position>, n: int)
    requires
        looks_around(vs, fulls, maps, ps),
        0 <= n < vs.len(),
    ensures
        forall|k: int, p: Position| 0 <= k <= n && #[trigger] vs[k].visited@.contains(p) ==> vs[n].visited@.contains(p),
    decreases n,
{
    if n > 0 {
        lemma_visited_kept(vs, fulls, maps, ps, n - 1);
        let j = n - 1;
        assert(vis_updated(vs[j], fulls[j], vs[j + 1], maps[j], ps[j]));
        assert(j + 1 == n);
    }
}

/// A cell once visited stays visited through any number of looks around, from any cells of
/// the player, with or without full-map vision: after the last look, every cell that was
/// visited before any look, or seen in any look, is still visited.
pub proof fn law_visited_never_shrinks(vs: Seq<Visibility>, fulls: Seq<bool>, maps: Seq<GameMap>, ps: Seq<Position>)
    requires
        looks_around(vs, fulls, maps, ps),
    ensures
        forall|k: int, p: Position| 0 <= k < vs.len() && #[trigger] vs[k].visited@.contains(p) ==> vs.last().visited@.contains(p),
        forall|k: int, p: Position| 1 <= k < vs.len() && #[trigger] vs[k].visible@.contains(p) ==> vs.last().visited@.contains(p),
{
    let n = vs.len() - 1;
    lemma_visited_kept(vs, fulls, maps, ps, n);
    assert forall|k: int, p: Position| 1 <= k < vs.len() && #[trigger] vs[k].visible@.contains(p) implies vs.last().visited@.contains(p) by {
        let j = k - 1;
        assert(vis_updated(vs[j], fulls[j], vs[j + 1], maps[j], ps[j]));
        assert(j + 1 == k);
        assert(vs[k].visited@.contains(p));
    }
}

/// A command that names an inventory slot past the end is refused, and the game is left as
/// it was.
pub proof fn law_invalid_index_refused(pre: GameState, cmd: GameCommand, post: GameState, r: Result<Vec<GameEvent>, TurnError>, i: usize)
    requires
        turn_post(pre, cmd, post, r),
        inventory_index(cmd) == Some(i),
        i >= pre.player.inventory@.len(),
    ensures
        post == pre,
        r == Err::<Vec<GameEvent>, TurnError>(TurnError::InvalidInventoryIndex(i)),
{
}

/// Quitting, opening an inventory and turning in place take no turn: the turn counter, the
/// player's stats and everyone's place stay as they were.
pub proof fn law_free_commands(pre: GameState, cmd: GameCommand, post: GameState, r: Result<Vec<GameEvent>, TurnError>)
    requires
        turn_post(pre, cmd, post, r),
        cmd is Quit || cmd is OpenInventory || cmd is OpenThrowInventory || cmd is Turn,
    ensures
        post.turn == pre.turn,
        post.player == (Player { direction: post.player.direction, ..pre.player }),
        post.monsters == pre.monsters,
        post.floor_items == pre.floor_items,
        post.floor == pre.floor,
        r is Ok,
{
}

/// Using an item never lifts the player's HP above the maximum HP.
pub proof fn law_use_item_keeps_hp_within_max(pre: GameState, post: GameState, idx: int, ev0: Seq<GameEvent>, ev1: Seq<GameEvent>)
    requires
        0 <= idx < pre.player.inventory@.len(),
        use_item_post(pre, post, idx, ev0, ev1),
        pre.limits(),
        pre.player.hp <= pre.player.max_hp,
    ensures
        post.player.hp <= post.player.max_hp,
{
    assert(super::dungeon::item_ok(pre.player.inventory@[idx]));
}

/// The player's action keeps the turn counter and the master data, and keeps the inventory
/// within its limit.
proof fn lemma_action_keeps(pre: GameState, cmd: GameCommand, s1: GameState, e1: Seq<GameEvent>)
    requires
        action_post(pre, cmd, s1, e1),
        inventory_index(cmd) matches Some(i) ==> i < pre.player.inventory@.len(),
    ensures
        s1.turn == pre.turn,
        s1.data == pre.data,
        pre.player.inventory@.len() <= pre.data.player.max_inventory ==> s1.player.inventory@.len()
            <= s1.data.player.max_inventory,
{
    let ev0 = Seq::<GameEvent>::empty();
    match cmd {
        GameCommand::Move(dir) => {
            let s0 = facing(pre, dir);
            let t = move_target(pre, dir);
            match spec_monster_at(pre.monsters@, t) {
                Some(mi) => {
                    lemma_attack_keeps(s0, s1, mi, ev0, e1);
                },
                None => {
                    if pre.map.spec_is_walkable(t) {
                        let mid = choose|mid: GameState| #[trigger] stepped(s0, t, mid) && super::dungeon::pickup_post(
                            mid, s1, ev0.push(GameEvent::PlayerMoved { from: s0.player.pos, to: t }), e1);
                        let ev_m = ev0.push(GameEvent::PlayerMoved { from: s0.player.pos, to: t });
                        let (m2, evm) = choose|m2: GameState, evm: Seq<GameEvent>|
                            super::dungeon::item_pickup_post(mid, m2, ev_m, evm) && #[trigger] super::dungeon::equip_pickup_post(m2, s1, evm, e1);
                        assert(m2.player.inventory@.len() <= mid.data.player.max_inventory || mid.player.inventory@.len() > mid.data.player.max_inventory);
                    }
                },
            }
        },
        GameCommand::ThrowItem(i) => {
            let p = pre.player;
            let ms = pre.monsters@;
            match throw_landing(pre.map, ms, p.pos, offset_pos(p.direction), pre.data.balance.throw_range as int) {
                ThrowLanding::Hit(mi) => {
                    let it = p.inventory@[i as int];
                    let m = ms[mi as int];
                    let m2 = herb_on_monster(it, wounded(m, super::dungeon::throw_damage(it, pre.data.balance)));
                    if m2.hp <= 0 {
                        let ev_t = e1.subrange(0, ev0.len() + 1int);
                        let p_base = choose|p_base: Player|
                            p_base.inventory@ == p.inventory@.remove(i as int) && #[trigger] defeat_post_with(pre, p_base, s1, mi as int, m.name, ev_t, e1)
                            && p_base == (Player { inventory: p_base.inventory, ..p });
                        lemma_defeat_keeps(pre, p_base, s1, mi as int, m.name, ev_t, e1);
                    }
                },
                _ => {},
            }
        },
        _ => {},
    }
}

/// A kill keeps the turn counter, the data and the killer's inventory.
proof fn lemma_defeat_keeps(pre: GameState, p_base: Player, post: GameState, mi: int, name: String, ev0: Seq<GameEvent>, ev1: Seq<GameEvent>)
    requires
        defeat_post_with(pre, p_base, post, mi, name, ev0, ev1),
    ensures
        post.turn == pre.turn,
        post.data == pre.data,
        post.player.inventory == p_base.inventory,
{
}

proof fn lemma_attack_keeps(pre: GameState, post: GameState, mi: int, ev0: Seq<GameEvent>, ev1: Seq<GameEvent>)
    requires
        attack_post(pre, post, mi, ev0, ev1),
    ensures
        post.turn == pre.turn,
        post.data == pre.data,
        post.player.inventory == pre.player.inventory,
{
}

/// What follows the player's action keeps the inventory and the data, and the turn
/// counter grows by one unless hunger killed the player.
proof fn lemma_rest_of_turn(s1: GameState, e1: Seq<GameEvent>, post: GameState, ev: Seq<GameEvent>)
    requires
        rest_of_turn(s1, e1, post, ev),
    ensures
        post.data == s1.data,
        post.player.inventory == s1.player.inventory,
        post.turn == s1.turn + 1 || (post.turn == s1.turn && post.player.hp <= 0 && ev.len() > 0 && ev.last()
            == GameEvent::GameOver),
{
    let (s2, e2) = choose|s2: GameState, e2: Seq<GameEvent>|
        #[trigger] hunger_step(s1, e1, s2, e2) && if s2.player.hp <= 0 {
            post == s2 && ev == e2.push(GameEvent::GameOver)
        } else {
            exists|s3: GameState, e3: Seq<GameEvent>|
                #[trigger] super::dungeon::monsters_post(s2, s3, e2, e3) && turn_end(s3, post) && ev == (if s3.player.hp <= 0 {
                    e3.push(GameEvent::GameOver)
                } else {
                    e3
                })
        };
    if s2.player.hp > 0 {
        let (s3, e3) = choose|s3: GameState, e3: Seq<GameEvent>|
            #[trigger] super::dungeon::monsters_post(s2, s3, e2, e3) && turn_end(s3, post) && ev == (if s3.player.hp <= 0 {
                e3.push(GameEvent::GameOver)
            } else {
                e3
            });
        assert(post.player.inventory == s3.player.inventory);
    }
}

/// A command that plays a turn: not a free command, a valid inventory index, and not a
/// step onto the exit.
pub open spec fn plays_turn(pre: GameState, cmd: GameCommand) -> bool {
    match cmd {
        GameCommand::Quit | GameCommand::OpenInventory | GameCommand::OpenThrowInventory | GameCommand::Turn(_) => false,
        GameCommand::Move(dir) => !(spec_monster_at(pre.monsters@, move_target(pre, dir)) is None
            && pre.map.spec_is_exit(move_target(pre, dir))),
        _ => inventory_index(cmd) matches Some(i) ==> i < pre.player.inventory@.len(),
    }
}

/// A command that plays a turn advances the turn counter by one, unless the player died of
/// hunger, in which case the last event is a `GameOver` and the counter stays.
pub proof fn law_turn_counter(pre: GameState, cmd: GameCommand, post: GameState, r: Result<Vec<GameEvent>, TurnError>)
    requires
        turn_post(pre, cmd, post, r),
        plays_turn(pre, cmd),
    ensures
        r is Ok,
        post.turn == pre.turn + 1 || (post.turn == pre.turn && post.player.hp <= 0 && r->Ok_0@.last()
            == GameEvent::GameOver),
{
    assert(acted(pre, cmd, post, r));
    let ev = r->Ok_0;
    let (s1, e1) = choose|s1: GameState, e1: Seq<GameEvent>|
        #[trigger] action_post(pre, cmd, s1, e1) && rest_of_turn(s1, e1, post, ev@);
    lemma_action_keeps(pre, cmd, s1, e1);
    lemma_rest_of_turn(s1, e1, post, ev@);
}

/// The inventory never grows past its limit: whatever the command, an inventory within the
/// limit stays within it.
pub proof fn law_inventory_within_limit(pre: GameState, cmd: GameCommand, post: GameState, r: Result<Vec<GameEvent>, TurnError>)
    requires
        turn_post(pre, cmd, post, r),
        pre.player.inventory@.len() <= pre.data.player.max_inventory,
    ensures
        post.player.inventory@.len() <= post.data.player.max_inventory,
{
    if plays_turn(pre, cmd) {
        assert(acted(pre, cmd, post, r));
        let ev = r->Ok_0;
        let (s1, e1) = choose|s1: GameState, e1: Seq<GameEvent>|
            #[trigger] action_post(pre, cmd, s1, e1) && rest_of_turn(s1, e1, post, ev@);
        lemma_action_keeps(pre, cmd, s1, e1);
        lemma_rest_of_turn(s1, e1, post, ev@);
    }
}

/// Along a run of the monsters' phase, the player's HP never rises when every blow deals
/// at least zero damage.
proof fn lemma_trace_hp(
    map: GameMap,
    ppos: Position,
    defense: int,
    bal: super::master_data::BalanceData,
    trace: Seq<super::dungeon::PhaseState>,
    k: int,
)
    requires
        super::dungeon::monsters_trace(map, ppos, defense, bal, trace),
        0 <= k < trace.len(),
        bal.min_damage >= 0,
    ensures
        trace[k].1 <= trace[0].1,
    decreases k,
{
    if k > 0 {
        lemma_trace_hp(map, ppos, defense, bal, trace, k - 1);
        assert(super::dungeon::trace_step_ok(map, ppos, defense, bal, trace, k - 1));
    }
}

/// The player's action keeps the HP at most the maximum HP.
proof fn lemma_action_hp(pre: GameState, cmd: GameCommand, s1: GameState, e1: Seq<GameEvent>)
    requires
        action_post(pre, cmd, s1, e1),
        inventory_index(cmd) matches Some(i) ==> i < pre.player.inventory@.len(),
        pre.limits(),
        pre.player.hp <= pre.player.max_hp,
    ensures
        s1.player.hp <= s1.player.max_hp,
        -3 * super::dungeon::STAT_LIMIT <= s1.player.hp,
        s1.data == pre.data,
{
    let ev0 = Seq::<GameEvent>::empty();
    assert(super::dungeon::data_ok(*pre.data));
    if let Some(i) = inventory_index(cmd) {
        assert(super::dungeon::item_ok(pre.player.inventory@[i as int]));
    }
    match cmd {
        GameCommand::Move(dir) => {
            let s0 = facing(pre, dir);
            let t = move_target(pre, dir);
            match spec_monster_at(pre.monsters@, t) {
                Some(mi) => {
                    lemma_attack_hp(s0, s1, mi, ev0, e1);
                },
                None => {
                    if pre.map.spec_is_walkable(t) {
                        let mid = choose|mid: GameState| #[trigger] stepped(s0, t, mid) && super::dungeon::pickup_post(
                            mid, s1, ev0.push(GameEvent::PlayerMoved { from: s0.player.pos, to: t }), e1);
                        let ev_m = ev0.push(GameEvent::PlayerMoved { from: s0.player.pos, to: t });
                        let (m2, evm) = choose|m2: GameState, evm: Seq<GameEvent>|
                            super::dungeon::item_pickup_post(mid, m2, ev_m, evm) && #[trigger] super::dungeon::equip_pickup_post(m2, s1, evm, e1);
                    }
                },
            }
        },
        GameCommand::UseItem(i) => {
            law_use_item_keeps_hp_within_max(pre, s1, i as int, ev0, e1);
        },
        GameCommand::ThrowItem(i) => {
            let p = pre.player;
            let ms = pre.monsters@;
            match throw_landing(pre.map, ms, p.pos, offset_pos(p.direction), pre.data.balance.throw_range as int) {
                ThrowLanding::Hit(mi) => {
                    let it = p.inventory@[i as int];
                    let m = ms[mi as int];
                    let m2 = herb_on_monster(it, wounded(m, super::dungeon::throw_damage(it, pre.data.balance)));
                    if m2.hp <= 0 {
                        let ev_t = e1.subrange(0, ev0.len() + 1int);
                        let p_base = choose|p_base: Player|
                            p_base.inventory@ == p.inventory@.remove(i as int) && #[trigger] defeat_post_with(pre, p_base, s1, mi as int, m.name, ev_t, e1)
                            && p_base == (Player { inventory: p_base.inventory, ..p });
                        lemma_defeat_hp(pre, p_base, s1, mi as int, m.name, ev_t, e1);
                    }
                },
                _ => {},
            }
        },
        _ => {},
    }
}

/// A kill leaves the HP at most the maximum HP: a level-up fills it, else it stays.
proof fn lemma_defeat_hp(pre: GameState, p_base: Player, post: GameState, mi: int, name: String, ev0: Seq<GameEvent>, ev1: Seq<GameEvent>)
    requires
        defeat_post_with(pre, p_base, post, mi, name, ev0, ev1),
        p_base.hp <= p_base.max_hp,
        super::dungeon::data_ok(*pre.data),
        -3 * super::dungeon::STAT_LIMIT <= p_base.hp,
    ensures
        post.player.hp <= post.player.max_hp,
        -3 * super::dungeon::STAT_LIMIT <= post.player.hp,
{
    let t = pre.data.player.level_table@;
    let pc = super::dungeon::credited(p_base, pre.monsters@[mi].exp);
    super::dungeon::lemma_level_up_entry_range(t, t.len() as int, pc.exp, pc.level);
    if let Some(i) = super::dungeon::spec_level_up_entry(t, t.len() as int, pc.exp, pc.level) {
        assert(super::dungeon::level_entry_ok(t[i]));
    }
}

proof fn lemma_attack_hp(pre: GameState, post: GameState, mi: int, ev0: Seq<GameEvent>, ev1: Seq<GameEvent>)
    requires
        attack_post(pre, post, mi, ev0, ev1),
        pre.player.hp <= pre.player.max_hp,
        super::dungeon::data_ok(*pre.data),
        -3 * super::dungeon::STAT_LIMIT <= pre.player.hp,
    ensures
        post.player.hp <= post.player.max_hp,
        -3 * super::dungeon::STAT_LIMIT <= post.player.hp,
{
    let m = pre.monsters@[mi];
    let damage = spec_damage(pre.data.balance.min_damage as int, pre.player.spec_effective_attack(), m.defense as int);
    let hit = super::dungeon::unparalyzed(wounded(m, damage));
    if hit.hp <= 0 {
        lemma_defeat_hp(pre, pre.player, post, mi, m.name, ev1.subrange(0, ev0.len() + (if m.status.paralyzed { 1int } else { 0int }) + 1), ev1);
    }
}

/// A turn never lifts the player's HP above the maximum HP, as long as hunger does not heal
/// (a starvation damage of zero or more).
pub proof fn law_hp_within_max(pre: GameState, cmd: GameCommand, post: GameState, r: Result<Vec<GameEvent>, TurnError>)
    requires
        turn_post(pre, cmd, post, r),
        pre.limits(),
        pre.player.hp <= pre.player.max_hp,
        pre.data.balance.starvation_damage >= 0,
    ensures
        post.player.hp <= post.player.max_hp,
{
    if plays_turn(pre, cmd) {
        assert(acted(pre, cmd, post, r));
        let ev = r->Ok_0;
        let (s1, e1) = choose|s1: GameState, e1: Seq<GameEvent>|
            #[trigger] action_post(pre, cmd, s1, e1) && rest_of_turn(s1, e1, post, ev@);
        lemma_action_keeps(pre, cmd, s1, e1);
        lemma_action_hp(pre, cmd, s1, e1);
        assert(super::dungeon::data_ok(*pre.data));
        let (s2, e2) = choose|s2: GameState, e2: Seq<GameEvent>|
            #[trigger] hunger_step(s1, e1, s2, e2) && if s2.player.hp <= 0 {
                post == s2 && ev@ == e2.push(GameEvent::GameOver)
            } else {
                exists|s3: GameState, e3: Seq<GameEvent>|
                    #[trigger] super::dungeon::monsters_post(s2, s3, e2, e3) && turn_end(s3, post) && ev@ == (if s3.player.hp <= 0 {
                        e3.push(GameEvent::GameOver)
                    } else {
                        e3
                    })
            };
        if s2.player.hp > 0 {
            let (s3, e3) = choose|s3: GameState, e3: Seq<GameEvent>|
                #[trigger] super::dungeon::monsters_post(s2, s3, e2, e3) && turn_end(s3, post) && ev@ == (if s3.player.hp <= 0 {
                    e3.push(GameEvent::GameOver)
                } else {
                    e3
                });
            let trace = choose|trace: Seq<super::dungeon::PhaseState>| {
                &&& #[trigger] super::dungeon::monsters_trace(s2.map, s2.player.pos, s2.player.spec_effective_defense(), s2.data.balance, trace)
                &&& trace[0] == (s2.monsters@, s2.player.hp as int, e2)
                &&& trace.last() == (s3.monsters@, s3.player.hp as int, e3)
            };
            lemma_trace_hp(s2.map, s2.player.pos, s2.player.spec_effective_defense(), s2.data.balance, trace, trace.len() - 1);
        }
    }
}

// --- Monsters moving ---

/// No two monsters of the list stand on one cell.
pub open spec fn positions_distinct(ms: Seq<Monster>) -> bool {
    forall|i: int, j: int| 0 <= i < j < ms.len() ==> (#[trigger] ms[i]).pos != (#[trigger] ms[j]).pos
}

/// In one monster's turn only that monster may move, and only one step: never onto the
/// player, and onto a cell that another monster holds only when that cell is next to the
/// player (a chasing monster closes in on the player without looking at the cell); any
/// other cell it enters is walkable and free of monsters. A paralyzed monster does nothing;
/// one that is neither paralyzed nor confused and stands next to the player attacks it
/// without moving; the player's HP changes only by such a blow.
pub proof fn law_monster_step_moves(
    map: GameMap,
    ppos: Position,
    defense: int,
    bal: BalanceData,
    ms0: Seq<Monster>,
    hp0: int,
    ev0: Seq<GameEvent>,
    i: int,
    ms1: Seq<Monster>,
    hp1: int,
    ev1: Seq<GameEvent>,
)
    requires
        0 <= i < ms0.len(),
        monster_coord_ok(ms0[i].pos),
        monster_step(map, ppos, defense, bal, ms0, hp0, ev0, i, ms1, hp1, ev1),
    ensures
        ms1.len() == ms0.len(),
        forall|j: int| 0 <= j < ms0.len() && j != i ==> #[trigger] ms1[j] == ms0[j],
        ms1[i] == placed(ms0[i], ms1[i].pos),
        ms0[i].status.paralyzed ==> ms1 == ms0 && hp1 == hp0 && ev1 == ev0,
        !ms0[i].status.paralyzed && ms0[i].status.confused is None && is_neighbour(ppos, ms0[i].pos) ==> ms1 == ms0
            && hp1 == hp0 - spec_damage(bal.min_damage as int, ms0[i].attack as int, defense),
        hp1 != hp0 ==> !ms0[i].status.paralyzed && ms0[i].status.confused is None && is_neighbour(ppos, ms0[i].pos),
        ms1[i].pos != ms0[i].pos ==> {
            &&& is_neighbour(ms0[i].pos, ms1[i].pos)
            &&& ms1[i].pos != ppos
            &&& in_square(ppos, ms1[i].pos) || (map.spec_is_walkable(ms1[i].pos) && forall|j: int|
                0 <= j < ms0.len() ==> #[trigger] ms0[j].pos != ms1[i].pos)
        },
{
    let m = ms0[i];
    let mpos = m.pos;
    if !m.status.paralyzed && (m.status.confused.is_some() || !(in_square(ppos, mpos) && mpos != ppos)) {
        let chases = m.status.confused.is_none() && (map.spec_same_room(mpos, ppos) || mpos.spec_manhattan(ppos)
            <= bal.detection_range) && chase_target(map, ms0, mpos, ppos).is_some();
        if chases {
            let t = chase_target(map, ms0, mpos, ppos).unwrap();
            lemma_chase_target_cell(map, ms0, mpos, ppos);
            assert(ms1 == ms0.update(i, placed(m, t)));
        } else {
            if exists|t: Position| #[trigger] free_step(map, ms0, mpos, ppos, t) && ms1 == ms0.update(i, placed(ms0[i], t))
                && ev1 == ev0.push(GameEvent::MonsterMoved { id: i as usize, from: mpos, to: t }) {
                let t = choose|t: Position| #[trigger] free_step(map, ms0, mpos, ppos, t) && ms1 == ms0.update(
                    i,
                    placed(ms0[i], t),
                ) && ev1 == ev0.push(GameEvent::MonsterMoved { id: i as usize, from: mpos, to: t });
                lemma_none_at(ms0, t);
            }
        }
    }
}

/// No monster stands where `spec_monster_at` finds none.
proof fn lemma_none_at(ms: Seq<Monster>, t: Position)
    ensures
        spec_monster_at(ms, t).is_none() ==> forall|j: int| 0 <= j < ms.len() ==> #[trigger] ms[j].pos != t,
{
}

/// A chasing monster closes in: the cell it steps to is a neighbour of its own, nearer to
/// the player (in steps along the axes), not the player's cell, and either next to the
/// player or walkable and free of monsters.
pub proof fn law_chase_closes_in(map: GameMap, ms: Seq<Monster>, mpos: Position, ppos: Position)
    requires
        monster_coord_ok(mpos),
    ensures
        chase_target(map, ms, mpos, ppos) matches Some(t) ==> {
            &&& is_neighbour(mpos, t)
            &&& t != ppos
            &&& t.spec_manhattan(ppos) < mpos.spec_manhattan(ppos)
            &&& in_square(ppos, t) || (map.spec_is_walkable(t) && forall|j: int| 0 <= j < ms.len() ==> #[trigger] ms[j].pos != t)
        },
{
    lemma_chase_target_cell(map, ms, mpos, ppos);
}

proof fn lemma_chase_target_cell(map: GameMap, ms: Seq<Monster>, mpos: Position, ppos: Position)
    requires
        monster_coord_ok(mpos),
    ensures
        chase_target(map, ms, mpos, ppos) matches Some(t) ==> {
            &&& is_neighbour(mpos, t)
            &&& t != ppos
            &&& t.spec_manhattan(ppos) < mpos.spec_manhattan(ppos)
            &&& in_square(ppos, t) || (map.spec_is_walkable(t) && forall|j: int| 0 <= j < ms.len() ==> #[trigger] ms[j].pos != t)
        },
{
    let dx = sign(ppos.x - mpos.x) as i32;
    let dy = sign(ppos.y - mpos.y) as i32;
    lemma_chase_try_cell(map, ms, mpos, ppos, Position { x: dx, y: dy });
    lemma_chase_try_cell(map, ms, mpos, ppos, Position { x: dx, y: 0 });
    lemma_chase_try_cell(map, ms, mpos, ppos, Position { x: 0, y: dy });
}

proof fn lemma_chase_try_cell(map: GameMap, ms: Seq<Monster>, mpos: Position, ppos: Position, off: Position)
    requires
        monster_coord_ok(mpos),
        off.x == 0 || off.x == sign(ppos.x - mpos.x),
        off.y == 0 || off.y == sign(ppos.y - mpos.y),
    ensures
        chase_try(map, ms, mpos, ppos, off) matches Some(Some(t)) ==> {
            &&& is_neighbour(mpos, t)
            &&& t != ppos
            &&& t.spec_manhattan(ppos) < mpos.spec_manhattan(ppos)
            &&& in_square(ppos, t) || (map.spec_is_walkable(t) && forall|j: int| 0 <= j < ms.len() ==> #[trigger] ms[j].pos != t)
        },
{
    lemma_none_at(ms, shifted(mpos, off));
}

// --- Knockback ---

/// The cell `k` steps from `p` along `off`.
pub open spec fn pushed(p: Position, off: Position, k: int) -> Position
    decreases k,
{
    if k <= 0 {
        p
    } else {
        pushed(shifted(p, off), off, k - 1)
    }
}

/// A knocked-back monster moves straight along the bolt's direction, at most the staff's
/// distance, and only that monster moves; every cell it enters is walkable, is not the
/// player's and holds no other monster. So monsters that stood on distinct cells still do.
pub proof fn law_knockback_path_clear(map: GameMap, ms: Seq<Monster>, mi: int, ppos: Position, off: Position, steps: int)
    requires
        0 <= mi < ms.len(),
    ensures
        ({
            let r = knock(map, ms, mi, ppos, off, steps);
            &&& 0 <= r.1
            &&& r.1 <= steps || r.1 == 0
            &&& r.0 == ms.update(mi, placed(ms[mi], pushed(ms[mi].pos, off, r.1)))
            &&& forall|k: int| 1 <= k <= r.1 ==> map.spec_is_walkable(#[trigger] pushed(ms[mi].pos, off, k))
                && pushed(ms[mi].pos, off, k) != ppos
                && forall|j: int| 0 <= j < ms.len() && j != mi ==> #[trigger] ms[j].pos != pushed(ms[mi].pos, off, k)
            &&& positions_distinct(ms) ==> positions_distinct(r.0)
        }),
    decreases steps,
{
    let r = knock(map, ms, mi, ppos, off, steps);
    let p0 = ms[mi].pos;
    if steps > 0 {
        let next = shifted(p0, off);
        if !(!map.spec_is_walkable(next) || spec_monster_at(ms, next).is_some() || next == ppos) {
            let ms1 = ms.update(mi, placed(ms[mi], next));
            law_knockback_path_clear(map, ms1, mi, ppos, off, steps - 1);
            let r1 = knock(map, ms1, mi, ppos, off, steps - 1);
            assert(r == (r1.0, r1.1 + 1));
            assert(ms1[mi].pos == next);
            lemma_none_at(ms, next);
            assert forall|k: int| 1 <= k <= r.1 implies map.spec_is_walkable(#[trigger] pushed(p0, off, k))
                && pushed(p0, off, k) != ppos
                && forall|j: int| 0 <= j < ms.len() && j != mi ==> #[trigger] ms[j].pos != pushed(p0, off, k) by {
                assert(pushed(p0, off, k) == pushed(next, off, k - 1));
                if k > 1 {
                    assert forall|j: int| 0 <= j < ms.len() && j != mi implies #[trigger] ms[j].pos != pushed(p0, off, k) by {
                        assert(ms1[j] == ms[j]);
                    }
                }
            }
            assert(pushed(p0, off, r.1) == pushed(next, off, r1.1));
            assert(r.0 =~= ms.update(mi, placed(ms[mi], pushed(p0, off, r.1))));
        }
    }
    if positions_distinct(ms) {
        let q = pushed(p0, off, r.1);
        assert forall|a: int, b: int| 0 <= a < b < r.0.len() implies (#[trigger] r.0[a]).pos != (#[trigger] r.0[b]).pos by {
            if a == mi && r.1 >= 1 {
                assert(ms[b].pos != pushed(p0, off, r.1));
            } else if b == mi && r.1 >= 1 {
                assert(ms[a].pos != pushed(p0, off, r.1));
            } else {
                assert(ms[a].pos != ms[b].pos);
            }
        }
    }
}

// --- Level-ups ---

/// Entry `i` of the table can be reached by a player of `level` with `exp` experience.
pub open spec fn reachable_entry(table: Seq<LevelEntry>, i: int, exp: i32, level: i32) -> bool {
    exp >= table[i].req_exp && level < table[i].level
}

proof fn lemma_level_up_entry_last(table: Seq<LevelEntry>, n: int, exp: i32, level: i32)
    requires
        n <= table.len(),
    ensures
        match spec_level_up_entry(table, n, exp, level) {
            Some(i) => 0 <= i < n && reachable_entry(table, i, exp, level) && forall|j: int|
                i < j < n ==> !#[trigger] reachable_entry(table, j, exp, level),
            None => forall|j: int| 0 <= j < n ==> !#[trigger] reachable_entry(table, j, exp, level),
        },
    decreases n,
{
    if n > 0 {
        lemma_level_up_entry_last(table, n - 1, exp, level);
    }
}

/// A level-up takes every stat of the level-table entry it reaches: the player's level,
/// attack, defense and maximum HP become the entry's, its HP is refilled to that maximum,
/// and a `LevelUp` event names the new level. The entry is the last of the table whose
/// required experience the player has and whose level is above the player's; when there
/// is none, the player and the events stay as they were. Nothing else of the player changes.
pub proof fn law_level_up_takes_entry(table: Seq<LevelEntry>, p0: Player, p1: Player, ev0: Seq<GameEvent>, ev1: Seq<GameEvent>)
    requires
        level_up_post(table, p0, p1, ev0, ev1),
    ensures
        p1 == (Player { level: p1.level, max_hp: p1.max_hp, hp: p1.hp, attack: p1.attack, defense: p1.defense, ..p0 }),
        (forall|j: int| 0 <= j < table.len() ==> !#[trigger] reachable_entry(table, j, p0.exp, p0.level)) ==> p1 == p0
            && ev1 == ev0,
        (exists|j: int| 0 <= j < table.len() && #[trigger] reachable_entry(table, j, p0.exp, p0.level)) ==> exists|i: int|
            {
                &&& 0 <= i < table.len()
                &&& #[trigger] reachable_entry(table, i, p0.exp, p0.level)
                &&& forall|j: int| i < j < table.len() ==> !#[trigger] reachable_entry(table, j, p0.exp, p0.level)
                &&& p1.level == table[i].level
                &&& p1.attack == table[i].attack
                &&& p1.defense == table[i].defense
                &&& p1.max_hp == table[i].max_hp
                &&& p1.hp == table[i].max_hp
                &&& ev1 == ev0.push(GameEvent::LevelUp { new_level: table[i].level })
            },
{
    lemma_level_up_entry_last(table, table.len() as int, p0.exp, p0.level);
    match spec_level_up_entry(table, table.len() as int, p0.exp, p0.level) {
        Some(i) => {
            assert(reachable_entry(table, i, p0.exp, p0.level));
        },
        None => {},
    }
}

// --- Items ---

/// Using an item changes the player's base attack only when it is a `BoostAttack` item,
/// which raises it by its amount, and the timed attack boost only when it is a `TempBoostAttack { amount, turns }` item, which
/// sets the boost to `(amount, turns)` and leaves the base attack as it was.
pub proof fn law_use_item_attack(pre: GameState, post: GameState, idx: int, ev0: Seq<GameEvent>, ev1: Seq<GameEvent>)
    requires
        0 <= idx < pre.player.inventory@.len(),
        use_item_post(pre, post, idx, ev0, ev1),
    ensures
        !(pre.player.inventory@[idx].effect is BoostAttack) ==> post.player.attack == pre.player.attack,
        match pre.player.inventory@[idx].effect {
            ItemEffect::BoostAttack(a) => i32::MIN <= pre.player.attack + a <= i32::MAX ==> post.player.attack
                == pre.player.attack + a,
            _ => true,
        },
        match pre.player.inventory@[idx].effect {
            ItemEffect::TempBoostAttack { amount, turns } => post.player.status.attack_boost == Some((amount, turns)),
            _ => post.player.status.attack_boost == pre.player.status.attack_boost,
        },
{
}

} // verus!
