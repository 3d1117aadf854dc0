use std::sync::Arc;

use vstd::prelude::*;

use super::dungeon::{
    coord_ok, data_ok, equip_ok, item_ok, monster_coord_ok, monster_ok, spec_monster_count, stat_ok,
    GameState, COORD_LIMIT, };
use super::entity::{
    category_of_def, effect_of_def, AiType, EquipCategory, Equipment, FloorEquipment, FloorItem, Item,
    ItemCategory, Monster, Player,
};
use super::master_data::{
    find_entry, spec_find, AiTypeDef, EquipCategoryDef, EquipSpawnEntry, EquipmentDef, FloorRange,
    FoodSpawnEntry, FoodSpawnItem, HerbSpawnEntry, ItemCategoryDef, ItemDef, MasterData,
    MonsterStatsDef, MonsterTableEntry, PlayerData,
};
use super::types::{Direction, Position};
use super::visibility::{spec_sees, Visibility};
use super::data_loader::{all_defined, defined, foods_defined, references_ok};
use crate::map::cell::GameMap;
use crate::map::generator::{dungeon_layout, generate, Area, Point, MAP_HEIGHT, MAP_WIDTH};
use crate::map::spawn::{calc_spawn_pos, spawn_candidate};
use crate::rng::{random_below, random_i32_inclusive, random_ratio, random_u32_inclusive};

use crate::map::reach::floor_connected;
verus! {

// --- Floor tables ---

/// The first index, from `from` on, whose floor range holds `floor`.
pub open spec fn first_covering(ranges: Seq<FloorRange>, floor: u32, from: int) -> Option<int>
    decreases ranges.len() - from,
{
    if from < 0 || from >= ranges.len() {
        None
    } else if ranges[from].spec_contains(floor) {
        Some(from)
    } else {
        first_covering(ranges, floor, from + 1)
    }
}

pub open spec fn monster_ranges(t: Seq<MonsterTableEntry>) -> Seq<FloorRange> {
    t.map_values(|e: MonsterTableEntry| e.floors)
}

proof fn lemma_first_covering(ranges: Seq<FloorRange>, floor: u32, from: int)
    ensures
        first_covering(ranges, floor, from) matches Some(i) ==> 0 <= i < ranges.len(),
    decreases ranges.len() - from,
{
    if 0 <= from < ranges.len() && !ranges[from].spec_contains(floor) {
        lemma_first_covering(ranges, floor, from + 1);
    }
}

/// When every id that the tables use is defined, so is every monster of the floor's list.
proof fn lemma_monster_list_defined(d: MasterData, floor: u32)
    requires
        references_ok(d),
    ensures
        all_defined(d.monsters@, spec_monster_list(d, floor)),
{
    let t = d.floors.monster_table@;
    lemma_first_covering(monster_ranges(t), floor, 0);
    match first_covering(monster_ranges(t), floor, 0) {
        Some(i) => {
            assert(all_defined(d.monsters@, t[i].monsters@));
        },
        None => {
            if t.len() > 0 {
                assert(all_defined(d.monsters@, t[t.len() - 1].monsters@));
            }
        },
    }
}

pub open spec fn herb_ranges(t: Seq<HerbSpawnEntry>) -> Seq<FloorRange> {
    t.map_values(|e: HerbSpawnEntry| e.floors)
}

pub open spec fn food_ranges(t: Seq<FoodSpawnEntry>) -> Seq<FloorRange> {
    t.map_values(|e: FoodSpawnEntry| e.floors)
}

pub open spec fn equip_ranges(t: Seq<EquipSpawnEntry>) -> Seq<FloorRange> {
    t.map_values(|e: EquipSpawnEntry| e.floors)
}

/// The kinds of monster on `floor`: the list of the first table entry that covers it, else
/// that of the last entry, else none.
pub open spec fn spec_monster_list(d: MasterData, floor: u32) -> Seq<String> {
    let t = d.floors.monster_table@;
    match first_covering(monster_ranges(t), floor, 0) {
        Some(i) => t[i].monsters@,
        None => if t.len() > 0 {
            t.last().monsters@
        } else {
            seq![]
        },
    }
}

/// The number of herbs on `floor`: that of the first herb entry that covers it, else 3.
pub open spec fn spec_herb_count(d: MasterData, floor: u32) -> u32 {
    let t = d.floors.herb_spawns@;
    match first_covering(herb_ranges(t), floor, 0) {
        Some(i) => t[i].count,
        None => 3,
    }
}

/// The food entry that applies on `floor`, if any.
pub open spec fn spec_food_entry(d: MasterData, floor: u32) -> Option<int> {
    first_covering(food_ranges(d.floors.food_spawns@), floor, 0)
}

/// The number of food items on `floor`.
pub open spec fn spec_food_count(d: MasterData, floor: u32) -> int {
    match spec_food_entry(d, floor) {
        Some(i) => d.floors.food_spawns@[i].count as int,
        None => 0,
    }
}

/// The equipment entry that applies on `floor`, if any.
pub open spec fn spec_equip_entry(d: MasterData, floor: u32) -> Option<int> {
    first_covering(equip_ranges(d.floors.equipment_spawns@), floor, 0)
}

/// The sum of the weights of a food list.
pub open spec fn food_total(items: Seq<FoodSpawnItem>) -> int
    decreases items.len(),
{
    if items.len() == 0 {
        0
    } else {
        food_total(items.drop_last()) + items.last().weight
    }
}

/// The master data can populate `floor` without a failed draw: every list that a draw
/// picks from is non-empty, every range is ordered and every probability is at most one.
pub open spec fn spawnable(d: MasterData, floor: u32) -> bool {
    let sc = d.floors.scroll_spawns;
    let st = d.floors.staff_spawns;
    &&& (spec_monster_count(d.floors.monster_counts@, floor) > 0 ==> spec_monster_list(d, floor).len() > 0)
    &&& (spec_food_entry(d, floor) matches Some(i) ==> {
        let e = d.floors.food_spawns@[i];
        e.count > 0 ==> e.items@.len() > 0 && food_total(e.items@) <= usize::MAX
    })
    &&& sc.min <= sc.max
    &&& sc.max - sc.min < usize::MAX
    &&& (sc.max > 0 ==> sc.pool@.len() > 0)
    &&& st.chance <= 1_000_000
    &&& (st.chance > 0 ==> st.min_charges <= st.max_charges && st.pool@.len() > 0)
    &&& (spec_equip_entry(d, floor) matches Some(i) ==> {
        let e = d.floors.equipment_spawns@[i];
        &&& e.chance <= 1_000_000
        &&& e.chance > 0 ==> 0 <= e.max_enhancement && e.weapons@.len() > 0 && e.shields@.len() > 0
    })
}

/// The master data can populate every floor of the game.
pub open spec fn playable(d: MasterData) -> bool {
    forall|f: u32| (f == 1 || 1 <= f <= d.map.max_floor) ==> #[trigger] spawnable(d, f)
}

pub(crate) fn monster_table_index(d: &MasterData, floor: u32) -> (r: Option<usize>)
    ensures
        r matches Some(i) ==> first_covering(monster_ranges(d.floors.monster_table@), floor, 0) == Some(i as int),
        r is None ==> first_covering(monster_ranges(d.floors.monster_table@), floor, 0) is None,
        r matches Some(i) ==> i < d.floors.monster_table@.len(),
{
    let t = &d.floors.monster_table;
    let ghost rs = monster_ranges(t@);
    let mut i: usize = 0;
    while i < t.len()
        invariant
            t@ == d.floors.monster_table@,
            rs == monster_ranges(t@),
            i <= t@.len(),
            first_covering(rs, floor, 0) == first_covering(rs, floor, i as int),
        decreases t@.len() - i,
    {
        assert(rs[i as int] == t@[i as int].floors);
        if t[i].floors.contains(floor) {
            return Some(i);
        }
        i = i + 1;
    }
    None
}

fn herb_table_index(d: &MasterData, floor: u32) -> (r: Option<usize>)
    ensures
        r matches Some(i) ==> first_covering(herb_ranges(d.floors.herb_spawns@), floor, 0) == Some(i as int),
        r is None ==> first_covering(herb_ranges(d.floors.herb_spawns@), floor, 0) is None,
        r matches Some(i) ==> i < d.floors.herb_spawns@.len(),
{
    let t = &d.floors.herb_spawns;
    let ghost rs = herb_ranges(t@);
    let mut i: usize = 0;
    while i < t.len()
        invariant
            t@ == d.floors.herb_spawns@,
            rs == herb_ranges(t@),
            i <= t@.len(),
            first_covering(rs, floor, 0) == first_covering(rs, floor, i as int),
        decreases t@.len() - i,
    {
        assert(rs[i as int] == t@[i as int].floors);
        if t[i].floors.contains(floor) {
            return Some(i);
        }
        i = i + 1;
    }
    None
}

pub(crate) fn food_table_index(d: &MasterData, floor: u32) -> (r: Option<usize>)
    ensures
        r matches Some(i) ==> spec_food_entry(*d, floor) == Some(i as int),
        r is None ==> spec_food_entry(*d, floor) is None,
        r matches Some(i) ==> i < d.floors.food_spawns@.len(),
{
    let t = &d.floors.food_spawns;
    let ghost rs = food_ranges(t@);
    let mut i: usize = 0;
    while i < t.len()
        invariant
            t@ == d.floors.food_spawns@,
            rs == food_ranges(t@),
            i <= t@.len(),
            first_covering(rs, floor, 0) == first_covering(rs, floor, i as int),
        decreases t@.len() - i,
    {
        assert(rs[i as int] == t@[i as int].floors);
        if t[i].floors.contains(floor) {
            return Some(i);
        }
        i = i + 1;
    }
    None
}

pub(crate) fn equip_table_index(d: &MasterData, floor: u32) -> (r: Option<usize>)
    ensures
        r matches Some(i) ==> spec_equip_entry(*d, floor) == Some(i as int),
        r is None ==> spec_equip_entry(*d, floor) is None,
        r matches Some(i) ==> i < d.floors.equipment_spawns@.len(),
{
    let t = &d.floors.equipment_spawns;
    let ghost rs = equip_ranges(t@);
    let mut i: usize = 0;
    while i < t.len()
        invariant
            t@ == d.floors.equipment_spawns@,
            rs == equip_ranges(t@),
            i <= t@.len(),
            first_covering(rs, floor, 0) == first_covering(rs, floor, i as int),
        decreases t@.len() - i,
    {
        assert(rs[i as int] == t@[i as int].floors);
        if t[i].floors.contains(floor) {
            return Some(i);
        }
        i = i + 1;
    }
    None
}

/// A copy of a list of strings.
fn copy_strings(v: &Vec<String>) -> (r: Vec<String>)
    ensures
        r@ == v@,
{
    let mut r: Vec<String> = Vec::new();
    let mut i: usize = 0;
    while i < v.len()
        invariant
            i <= v@.len(),
            r@ == v@.subrange(0, i as int),
        decreases v@.len() - i,
    {
        r.push(v[i].clone());
        assert(r@ =~= v@.subrange(0, i + 1));
        i = i + 1;
    }
    assert(v@.subrange(0, v@.len() as int) =~= v@);
    r
}

impl GameState {
    pub fn monsters_for_floor(&self, floor: u32) -> (ids: Vec<String>)
        ensures
            ids@ == spec_monster_list(*self.data, floor),
    {
        match monster_table_index(&self.data, floor) {
            Some(i) => copy_strings(&self.data.floors.monster_table[i].monsters),
            None => {
                let t = &self.data.floors.monster_table;
                if t.len() > 0 {
                    copy_strings(&t[t.len() - 1].monsters)
                } else {
                    Vec::new()
                }
            },
        }
    }

    /// The number of herbs to place on `floor`.
    fn herb_count_for_floor(&self, floor: u32) -> (c: u32)
        ensures
            c == spec_herb_count(*self.data, floor),
    {
        match herb_table_index(&self.data, floor) {
            Some(i) => self.data.floors.herb_spawns[i].count,
            None => 3,
        }
    }
}

// --- Weighted draw ---

pub(crate) proof fn lemma_food_total_prefix(s: Seq<FoodSpawnItem>, i: int)
    requires
        0 <= i <= s.len(),
    ensures
        0 <= food_total(s.take(i)) <= food_total(s),
    decreases s.len(),
{
    if s.len() > 0 {
        if i == s.len() {
            assert(s.take(i) =~= s);
            lemma_food_total_prefix(s.drop_last(), s.len() - 1);
            assert(s.drop_last().take(s.len() - 1) =~= s.drop_last());
        } else {
            lemma_food_total_prefix(s.drop_last(), i);
            assert(s.drop_last().take(i) =~= s.take(i));
        }
    } else {
        assert(s.take(i) =~= s);
    }
}

pub(crate) proof fn lemma_food_total_step(s: Seq<FoodSpawnItem>, i: int)
    requires
        0 <= i < s.len(),
    ensures
        food_total(s.take(i + 1)) == food_total(s.take(i)) + s[i].weight,
{
    assert(s.take(i + 1).drop_last() =~= s.take(i));
}

/// The food item that a drawn value `r` selects, looking from item `j` on: the first whose
/// running total of weights exceeds `r` (the first item when none does).
pub open spec fn weighted_pick(items: Seq<FoodSpawnItem>, r: int, j: int) -> int
    decreases items.len() - j,
{
    if j < 0 || j >= items.len() {
        0
    } else if food_total(items.take(j + 1)) > r {
        j
    } else {
        weighted_pick(items, r, j + 1)
    }
}

/// The food item that the drawn value `r`, below the total weight, selects.
pub fn pick_weighted(items: &Vec<FoodSpawnItem>, r: usize) -> (k: usize)
    requires
        food_total(items@) <= usize::MAX,
        r < food_total(items@),
    ensures
        k == weighted_pick(items@, r as int, 0),
        k < items@.len(),
        items@[k as int].weight > 0,
{
    let mut acc: usize = 0;
    let mut j: usize = 0;
    proof {
        assert(items@.take(0) =~= Seq::<FoodSpawnItem>::empty());
    }
    while j < items.len()
        invariant
            j <= items@.len(),
            acc == food_total(items@.take(j as int)),
            acc <= r,
            r < food_total(items@),
            food_total(items@) <= usize::MAX,
            weighted_pick(items@, r as int, 0) == weighted_pick(items@, r as int, j as int),
        decreases items@.len() - j,
    {
        proof {
            lemma_food_total_step(items@, j as int);
            lemma_food_total_prefix(items@, j + 1);
        }
        acc = acc + items[j].weight as usize;
        if acc > r {
            return j;
        }
        j = j + 1;
    }
    proof {
        assert(items@.take(items@.len() as int) =~= items@);
    }
    0
}

/// The index of a food item drawn with probability proportional to its weight; when every
/// weight is zero, the first item. An item of weight zero is never drawn otherwise.
fn weighted_index(items: &Vec<FoodSpawnItem>) -> (k: usize)
    requires
        items@.len() > 0,
        food_total(items@) <= usize::MAX,
    ensures
        k < items@.len(),
        food_total(items@) > 0 ==> items@[k as int].weight > 0,
        food_total(items@) > 0 ==> exists|r: int| 0 <= r < food_total(items@) && k == weighted_pick(items@, r, 0),
        food_total(items@) == 0 ==> k == 0,
{
    let mut total: usize = 0;
    let mut i: usize = 0;
    while i < items.len()
        invariant
            i <= items@.len(),
            total == food_total(items@.take(i as int)),
            food_total(items@) <= usize::MAX,
        decreases items@.len() - i,
    {
        proof {
            lemma_food_total_step(items@, i as int);
            lemma_food_total_prefix(items@, i + 1);
        }
        total = total + items[i].weight as usize;
        i = i + 1;
    }
    assert(items@.take(items@.len() as int) =~= items@);
    if total == 0 {
        return 0;
    }
    let r = random_below(total);
    pick_weighted(items, r)
}

// --- Where entities go ---

pub open spec fn origin() -> Position {
    Position { x: 0, y: 0 }
}

/// A cell where a spawn may put an entity: a room cell other than the exit, or the origin
/// when the floor had no free room cell left.
pub open spec fn placed_ok(map: GameMap, p: Position) -> bool {
    p == origin() || (map.spec_is_room(p) && !map.spec_is_exit(p))
}

/// No two cells of the list coincide, but at the origin.
pub open spec fn spread(ps: Seq<Position>) -> bool {
    forall|i: int, j: int| #![trigger ps[i], ps[j]] 0 <= i < j < ps.len() ==> ps[i] != ps[j] || ps[i] == origin()
}

pub open spec fn monster_cells(ms: Seq<Monster>) -> Seq<Position> {
    ms.map_values(|m: Monster| m.pos)
}

pub open spec fn item_cells(v: Seq<FloorItem>) -> Seq<Position> {
    v.map_values(|f: FloorItem| f.pos)
}

pub open spec fn equip_cells(v: Seq<FloorEquipment>) -> Seq<Position> {
    v.map_values(|f: FloorEquipment| f.pos)
}

/// The cells of the monsters, the items, the equipment and the player, in that order.
pub open spec fn entity_cells(s: GameState) -> Seq<Position> {
    monster_cells(s.monsters@) + item_cells(s.floor_items@) + equip_cells(s.floor_equips@) + seq![s.player.pos]
}

/// A room cell other than the exit.
pub open spec fn room_free(map: GameMap, q: Position) -> bool {
    map.spec_is_room(q) && !map.spec_is_exit(q)
}

/// Every room cell other than the exit is among `occ`.
pub open spec fn rooms_taken(map: GameMap, occ: Seq<Position>) -> bool {
    forall|q: Position| #[trigger] room_free(map, q) ==> occ.contains(q)
}

/// Some cell of the list is not a room cell other than the exit, or two cells coincide.
pub open spec fn misplaced(map: GameMap, cells: Seq<Position>) -> bool {
    ||| exists|k: int| 0 <= k < cells.len() && !room_free(map, #[trigger] cells[k])
    ||| exists|i: int, j: int| #![trigger cells[i], cells[j]] 0 <= i < j < cells.len() && cells[i] == cells[j]
}

/// The cells placed so far are spread, valid, and all taken; a cell went elsewhere than a
/// free room cell only once every room cell (but the exit) was taken.
pub open spec fn tracked_cells(map: GameMap, occ: Seq<Position>, cells: Seq<Position>) -> bool {
    &&& spread(cells)
    &&& forall|k: int| 0 <= k < cells.len() ==> occ.contains(#[trigger] cells[k])
    &&& forall|k: int| 0 <= k < cells.len() ==> placed_ok(map, #[trigger] cells[k])
    &&& misplaced(map, cells) ==> rooms_taken(map, occ)
}

proof fn lemma_taken_grow(map: GameMap, occ: Seq<Position>, p: Position)
    requires
        rooms_taken(map, occ),
    ensures
        rooms_taken(map, occ.push(p)),
{
    assert forall|q: Position| #[trigger] room_free(map, q) implies occ.push(p).contains(q) by {
        let w = choose|w: int| 0 <= w < occ.len() && occ[w] == q;
        assert(occ.push(p)[w] == q);
    }
}

proof fn lemma_track_push(map: GameMap, occ: Seq<Position>, cells: Seq<Position>, p: Position)
    requires
        tracked_cells(map, occ, cells),
        placed_ok(map, p),
        !occ.contains(p) || p == origin(),
        !rooms_taken(map, occ) ==> spawn_candidate(map, occ, p),
    ensures
        tracked_cells(map, occ.push(p), cells.push(p)),
        tracked_cells(map, occ.push(p), cells),
{
    let c1 = cells.push(p);
    let o1 = occ.push(p);
    if rooms_taken(map, occ) {
        lemma_taken_grow(map, occ, p);
    } else {
        assert(!misplaced(map, cells));
        assert(room_free(map, p) && !occ.contains(p));
        assert(!misplaced(map, c1)) by {
            assert forall|k: int| 0 <= k < c1.len() implies room_free(map, #[trigger] c1[k]) by {
                if k < cells.len() {
                    assert(c1[k] == cells[k]);
                }
            }
            assert forall|i: int, j: int| #![trigger c1[i], c1[j]] 0 <= i < j < c1.len() implies c1[i] != c1[j] by {
                if j < cells.len() {
                    assert(c1[i] == cells[i] && c1[j] == cells[j]);
                } else {
                    assert(c1[i] == cells[i]);
                    assert(occ.contains(cells[i]));
                }
            }
        }
    }
    assert forall|k: int| 0 <= k < cells.len() implies o1.contains(#[trigger] cells[k]) by {
        let w = choose|w: int| 0 <= w < occ.len() && occ[w] == cells[k];
        assert(o1[w] == cells[k]);
    }
    assert forall|k: int| 0 <= k < c1.len() implies o1.contains(#[trigger] c1[k]) by {
        if k < cells.len() {
            assert(c1[k] == cells[k]);
        } else {
            assert(o1[occ.len() as int] == p);
        }
    }
    assert forall|i: int, j: int| 0 <= i < j < c1.len() implies c1[i] != c1[j] || c1[i] == origin() by {
        if j < cells.len() {
            assert(c1[i] == cells[i] && c1[j] == cells[j]);
        } else {
            assert(c1[i] == cells[i]);
            assert(occ.contains(cells[i]));
        }
    }
    assert forall|k: int| 0 <= k < c1.len() implies placed_ok(map, #[trigger] c1[k]) by {
        if k < cells.len() {
            assert(c1[k] == cells[k]);
        }
    }
}

proof fn lemma_placed_coord(map: GameMap, p: Position)
    requires
        placed_ok(map, p),
        map.width <= COORD_LIMIT,
        map.height <= COORD_LIMIT,
    ensures
        coord_ok(p),
        monster_coord_ok(p),
{
}

/// Takes a free room cell (or the origin when none is left) and marks it as taken.
fn place(map: &GameMap, occupied: &mut Vec<Position>) -> (p: Position)
    requires
        map.wf(),
        map.width <= COORD_LIMIT,
        map.height <= COORD_LIMIT,
    ensures
        final(occupied)@ == old(occupied)@.push(p),
        placed_ok(*map, p),
        !old(occupied)@.contains(p) || p == origin(),
        !rooms_taken(*map, old(occupied)@) ==> spawn_candidate(*map, old(occupied)@, p),
        coord_ok(p),
{
    let p = calc_spawn_pos(map, occupied);
    proof {
        lemma_placed_coord(*map, p);
        if !rooms_taken(*map, occupied@) {
            let q = choose|q: Position| #[trigger] room_free(*map, q) && !occupied@.contains(q);
            assert(spawn_candidate(*map, occupied@, q));
        }
    }
    occupied.push(p);
    p
}

// --- What a spawn creates ---

pub open spec fn ai_of_def(a: AiTypeDef) -> AiType {
    match a {
        AiTypeDef::Standard => AiType::Standard,
        AiTypeDef::Ranged => AiType::Ranged,
    }
}

/// `m` is a fresh monster of definition `def`: its stats, full HP and no status.
pub open spec fn fresh_monster(m: Monster, def: MonsterStatsDef) -> bool {
    &&& m.name@ == def.name@
    &&& m.symbol == def.symbol
    &&& m.hp == def.hp
    &&& m.max_hp == def.hp
    &&& m.attack == def.attack
    &&& m.defense == def.defense
    &&& m.exp == def.exp
    &&& m.ai_type == ai_of_def(def.ai_type)
    &&& m.status.confused is None
    &&& !m.status.paralyzed
    &&& m.status.attack_boost is None
}

/// `m` is a fresh monster of one of the kinds named in `ids`.
pub open spec fn monster_of(d: MasterData, ids: Seq<String>, m: Monster) -> bool {
    exists|j: int|
        0 <= j < ids.len() && (#[trigger] spec_find(d.monsters@, ids[j]@)) is Some && fresh_monster(
            m,
            d.monsters@[spec_find(d.monsters@, ids[j]@).unwrap()].1,
        )
}

/// `it` is the item that entry `(id, def)` describes; a staff carries 0 charges or a
/// number of charges between `lo` and `hi`.
pub open spec fn item_of_entry(it: Item, id: Seq<char>, def: ItemDef, lo: i32, hi: i32) -> bool {
    &&& it.id@ == id
    &&& it.name@ == def.name@
    &&& it.symbol == def.symbol
    &&& it.effect == effect_of_def(def.effect)
    &&& it.equip_data is None
    &&& match def.category {
        ItemCategoryDef::Staff => it.category matches ItemCategory::Staff(c) && (c == 0 || lo <= c <= hi),
        _ => it.category == category_of_def(def.category, None),
    }
}

/// `it` is the item of some entry of the item table (the first with its id).
pub open spec fn spawned_item(d: MasterData, it: Item) -> bool {
    exists|k: int|
        0 <= k < d.items@.len() && #[trigger] spec_find(d.items@, d.items@[k].0@) == Some(k) && item_of_entry(
            it,
            d.items@[k].0@,
            d.items@[k].1,
            d.floors.staff_spawns.min_charges,
            d.floors.staff_spawns.max_charges,
        )
}

pub open spec fn equip_category_of_def(c: EquipCategoryDef) -> EquipCategory {
    match c {
        EquipCategoryDef::Weapon => EquipCategory::Weapon,
        EquipCategoryDef::Shield => EquipCategory::Shield,
    }
}

/// `e` is the equipment of entry `(id, def)`.
pub open spec fn equip_of_entry(e: Equipment, id: Seq<char>, def: EquipmentDef) -> bool {
    &&& e.id@ == id
    &&& e.name@ == def.name@
    &&& e.symbol == def.symbol
    &&& e.category == equip_category_of_def(def.category)
    &&& e.base_value == def.base_value
}

/// `e` is the equipment of some entry of the equipment table (the first with its id), with
/// an enhancement between 0 and the maximum of the floor's equipment rule.
pub open spec fn spawned_equip(d: MasterData, floor: u32, e: Equipment) -> bool {
    &&& exists|k: int|
        0 <= k < d.equipment@.len() && #[trigger] spec_find(d.equipment@, d.equipment@[k].0@) == Some(k)
            && equip_of_entry(e, d.equipment@[k].0@, d.equipment@[k].1)
    &&& spec_equip_entry(d, floor) matches Some(i) && 0 <= e.enhancement <= d.floors.equipment_spawns@[i].max_enhancement
}

impl GameState {
    /// Places the floor's monsters: as many draws as the floor's count, each a random kind of
    /// the floor's list on a free cell (a kind missing from the monster table is skipped).
    fn spawn_monsters(&self, occupied: &mut Vec<Position>, Ghost(cells): Ghost<Seq<Position>>) -> (ms: Vec<Monster>)
        requires
            self.wf(),
            data_ok(*self.data),
            spawnable(*self.data, self.floor),
            tracked_cells(self.map, old(occupied)@, cells),
        ensures
            tracked_cells(self.map, final(occupied)@, cells + monster_cells(ms@)),
            ms@.len() <= spec_monster_count(self.data.floors.monster_counts@, self.floor),
            forall|k: int|
                0 <= k < ms@.len() ==> monster_of(*self.data, spec_monster_list(*self.data, self.floor), #[trigger] ms@[k])
                    && monster_ok(ms@[k]) && placed_ok(self.map, ms@[k].pos),
            all_defined(self.data.monsters@, spec_monster_list(*self.data, self.floor)) ==> ms@.len()
                == spec_monster_count(self.data.floors.monster_counts@, self.floor),
            all_defined(self.data.monsters@, spec_monster_list(*self.data, self.floor)) && old(occupied)@ == cells
                ==> final(occupied)@ == cells + monster_cells(ms@),
            final(occupied)@.len() == old(occupied)@.len() + spec_monster_count(self.data.floors.monster_counts@, self.floor),
    {
        let floor = self.floor;
        let monster_count = self.monster_count_for_floor(floor);
        let ids = self.monsters_for_floor(floor);
        let ghost map = self.map;
        let mut ms: Vec<Monster> = Vec::new();
        let mut i: u32 = 0;
        while i < monster_count
            invariant
                map == self.map,
                map.wf(),
                map.width <= COORD_LIMIT,
                map.height <= COORD_LIMIT,
                data_ok(*self.data),
                ids@ == spec_monster_list(*self.data, floor),
                monster_count == spec_monster_count(self.data.floors.monster_counts@, floor),
                monster_count > 0 ==> ids@.len() > 0,
                i <= monster_count,
                occupied@.len() == old(occupied)@.len() + i,
                ms@.len() <= i,
                all_defined(self.data.monsters@, ids@) ==> ms@.len() == i,
                all_defined(self.data.monsters@, ids@) && old(occupied)@ == cells ==> occupied@ == cells + monster_cells(ms@),
                tracked_cells(map, occupied@, cells + monster_cells(ms@)),
                forall|k: int|
                    0 <= k < ms@.len() ==> monster_of(*self.data, ids@, #[trigger] ms@[k]) && monster_ok(ms@[k]) && placed_ok(
                        map,
                        ms@[k].pos,
                    ),
            decreases monster_count - i,
        {
            let ghost occ0 = occupied@;
            let pos = place(&self.map, occupied);
            let k = random_below(ids.len());
            match find_entry(&self.data.monsters, &ids[k]) {
                Some(di) => {
                    let m = Monster::from_stats_def(&self.data.monsters[di].1, pos);
                    proof {
                        lemma_track_push(map, occ0, cells + monster_cells(ms@), pos);
                        assert(monster_cells(ms@.push(m)) =~= monster_cells(ms@).push(pos));
                        assert(cells + monster_cells(ms@.push(m)) =~= (cells + monster_cells(ms@)).push(pos));
                        assert(monster_def_bounds(*self.data, di as int));
                        assert(spec_find(self.data.monsters@, ids@[k as int]@) == Some(di as int));
                        assert(fresh_monster(m, self.data.monsters@[di as int].1));
                    }
                    ms.push(m);
                    proof {
                        assert forall|q: int| 0 <= q < ms@.len() implies monster_of(*self.data, ids@, #[trigger] ms@[q])
                            && monster_ok(ms@[q]) && placed_ok(map, ms@[q].pos) by {
                            if q == ms@.len() - 1 {
                                assert(ms@[q] == m);
                                assert(0 <= k < ids@.len() && spec_find(self.data.monsters@, ids@[k as int]@) is Some
                                    && fresh_monster(m, self.data.monsters@[spec_find(self.data.monsters@, ids@[k as int]@).unwrap()].1));
                            }
                        }
                    }
                },
                None => {
                    proof {
                        lemma_track_push(map, occ0, cells + monster_cells(ms@), pos);
                        if all_defined(self.data.monsters@, ids@) {
                            assert(defined(self.data.monsters@, ids@[k as int]@));
                        }
                    }
                },
            }
            i = i + 1;
        }
        ms
    }
}

/// Every item placed so far is a table item within the bounds, on a valid cell.
pub open spec fn items_spawned(s: GameState, v: Seq<FloorItem>) -> bool {
    forall|k: int|
        0 <= k < v.len() ==> spawned_item(*s.data, (#[trigger] v[k]).item) && item_ok(v[k].item) && placed_ok(
            s.map,
            v[k].pos,
        )
}

/// `v1` is `v0`, or `v0` and one more entry at `pos`.
pub open spec fn grown_at<T>(v0: Seq<T>, v1: Seq<T>, added: bool, cell: spec_fn(T) -> Position, pos: Position) -> bool {
    if added {
        v1.len() == v0.len() + 1 && v1.drop_last() == v0 && cell(v1.last()) == pos
    } else {
        v1 == v0
    }
}

proof fn lemma_item_step(
    map: GameMap,
    occ0: Seq<Position>,
    base: Seq<Position>,
    items0: Seq<FloorItem>,
    items1: Seq<FloorItem>,
    pos: Position,
    added: bool,
)
    requires
        tracked_cells(map, occ0, base + item_cells(items0)),
        placed_ok(map, pos),
        !occ0.contains(pos) || pos == origin(),
        !rooms_taken(map, occ0) ==> spawn_candidate(map, occ0, pos),
        grown_at(items0, items1, added, |f: FloorItem| f.pos, pos),
    ensures
        tracked_cells(map, occ0.push(pos), base + item_cells(items1)),
        added && occ0 == base + item_cells(items0) ==> occ0.push(pos) == base + item_cells(items1),
{
    lemma_track_push(map, occ0, base + item_cells(items0), pos);
    if added {
        assert(items1 =~= items0.push(items1.last()));
        assert(item_cells(items1) =~= item_cells(items0).push(pos));
        assert(base + item_cells(items1) =~= (base + item_cells(items0)).push(pos));
    }
}

/// The indices, in order, of the herb entries among the first `n` of the item table.
pub open spec fn herbs_upto(items: Seq<(String, ItemDef)>, n: int) -> Seq<usize>
    decreases n,
{
    if n <= 0 {
        seq![]
    } else {
        let prev = herbs_upto(items, n - 1);
        if items[n - 1].1.category is Herb {
            prev.push((n - 1) as usize)
        } else {
            prev
        }
    }
}

/// The indices of the herb entries of the item table.
fn herb_indices(items: &Vec<(String, ItemDef)>) -> (r: Vec<usize>)
    ensures
        r@ == herbs_upto(items@, items@.len() as int),
        forall|k: int| 0 <= k < r@.len() ==> (#[trigger] r@[k]) < items@.len() && items@[r@[k] as int].1.category
            is Herb,
        has_herb(items@) ==> r@.len() > 0,
{
    let mut r: Vec<usize> = Vec::new();
    let mut i: usize = 0;
    while i < items.len()
        invariant
            i <= items@.len(),
            r@ == herbs_upto(items@, i as int),
            forall|k: int| 0 <= k < r@.len() ==> (#[trigger] r@[k]) < items@.len() && items@[r@[k] as int].1.category
                is Herb,
            (exists|k: int| 0 <= k < i && (#[trigger] items@[k]).1.category is Herb) ==> r@.len() > 0,
        decreases items@.len() - i,
    {
        if matches!(items[i].1.category, ItemCategoryDef::Herb) {
            r.push(i);
        }
        i = i + 1;
    }
    r
}

/// The item table has a herb.
pub open spec fn has_herb(items: Seq<(String, ItemDef)>) -> bool {
    exists|k: int| 0 <= k < items.len() && (#[trigger] items[k]).1.category is Herb
}

impl GameState {
    /// Adds the table item named `id` at `pos` (nothing when the table lacks it).
    fn add_item(&self, items: &mut Vec<FloorItem>, id: &String, charges: Option<i32>, pos: Position) -> (added: bool)
        requires
            data_ok(*self.data),
            placed_ok(self.map, pos),
            charges matches Some(c) ==> self.data.floors.staff_spawns.min_charges <= c
                <= self.data.floors.staff_spawns.max_charges,
        ensures
            grown_at(old(items)@, final(items)@, added, |f: FloorItem| f.pos, pos),
            added ==> spawned_item(*self.data, final(items)@.last().item) && item_ok(final(items)@.last().item),
            added == defined(self.data.items@, id@),
    {
        match find_entry(&self.data.items, id) {
            Some(di) => {
                let it = Item::from_def(self.data.items[di].0.as_str(), &self.data.items[di].1, charges);
                proof {
                    let d = self.data;
                    assert(spec_find(d.items@, d.items@[di as int].0@) == Some(di as int));
                    assert(effect_ok_of(*d, di as int));
                    assert(item_of_entry(it, d.items@[di as int].0@, d.items@[di as int].1,
                        d.floors.staff_spawns.min_charges, d.floors.staff_spawns.max_charges));
                }
                let ghost v0 = items@;
                items.push(FloorItem { item: it, pos });
                proof {
                    assert(items@.drop_last() =~= v0);
                }
                true
            },
            None => false,
        }
    }
}

proof fn lemma_items_grow(s: GameState, v0: Seq<FloorItem>, v1: Seq<FloorItem>, added: bool, pos: Position)
    requires
        items_spawned(s, v0),
        grown_at(v0, v1, added, |f: FloorItem| f.pos, pos),
        added ==> spawned_item(*s.data, v1.last().item) && item_ok(v1.last().item),
        placed_ok(s.map, pos),
    ensures
        items_spawned(s, v1),
{
    if added {
        assert forall|k: int| 0 <= k < v1.len() implies spawned_item(*s.data, (#[trigger] v1[k]).item) && item_ok(
            v1[k].item,
        ) && placed_ok(s.map, v1[k].pos) by {
            if k < v0.len() {
                assert(v1[k] == v1.drop_last()[k]);
            }
        }
    }
}

impl GameState {
    /// Places the floor's herbs, each a random herb of the item table.
    #[verifier::rlimit(50)]
    #[verifier::spinoff_prover]
    fn spawn_herbs(&self, occupied: &mut Vec<Position>, items: &mut Vec<FloorItem>, Ghost(base): Ghost<Seq<Position>>)
        requires
            self.wf(),
            data_ok(*self.data),
            tracked_cells(self.map, old(occupied)@, base + item_cells(old(items)@)),
            items_spawned(*self, old(items)@),
        ensures
            tracked_cells(self.map, final(occupied)@, base + item_cells(final(items)@)),
            items_spawned(*self, final(items)@),
            final(items)@.len() <= old(items)@.len() + spec_herb_count(*self.data, self.floor),
            final(items)@.len() >= old(items)@.len(),
            has_herb(self.data.items@) ==> final(items)@.len() == old(items)@.len() + spec_herb_count(
                *self.data,
                self.floor,
            ),
            old(occupied)@ == base + item_cells(old(items)@) ==> final(occupied)@ == base + item_cells(final(items)@),
            final(occupied)@.len() <= old(occupied)@.len() + spec_herb_count(*self.data, self.floor),
    {
        let herb_count = self.herb_count_for_floor(self.floor);
        let herbs = herb_indices(&self.data.items);
        if herbs.len() == 0 {
            return;
        }
        let ghost n0 = items@.len();
        let mut j: u32 = 0;
        while j < herb_count
            invariant
                self.wf(),
                data_ok(*self.data),
                herbs@.len() > 0,
                forall|k: int| 0 <= k < herbs@.len() ==> (#[trigger] herbs@[k]) < self.data.items@.len(),
                j <= herb_count,
                occupied@.len() == old(occupied)@.len() + j,
                items@.len() <= n0 + j,
                items@.len() == n0 + j,
                old(occupied)@ == base + item_cells(old(items)@) ==> occupied@ == base + item_cells(items@),
                tracked_cells(self.map, occupied@, base + item_cells(items@)),
                items_spawned(*self, items@),
            decreases herb_count - j,
        {
            let ghost occ0 = occupied@;
            let ghost v0 = items@;
            let pos = place(&self.map, occupied);
            let h = herbs[random_below(herbs.len())];
            proof {
                assert(spec_find(self.data.items@, self.data.items@[h as int].0@) is Some) by {
                    assert(0 <= h < self.data.items@.len() && self.data.items@[h as int].0@ == self.data.items@[h as int].0@);
                }
            }
            let added = self.add_item(items, &self.data.items[h].0, None, pos);
            proof {
                lemma_item_step(self.map, occ0, base, v0, items@, pos, added);
                lemma_items_grow(*self, v0, items@, added, pos);
            }
            j = j + 1;
        }
    }

    /// Places the food of the floor's food rule, each drawn by weight from its list.
    #[verifier::rlimit(50)]
    #[verifier::spinoff_prover]
    fn spawn_food(&self, occupied: &mut Vec<Position>, items: &mut Vec<FloorItem>, Ghost(base): Ghost<Seq<Position>>)
        requires
            self.wf(),
            data_ok(*self.data),
            spawnable(*self.data, self.floor),
            tracked_cells(self.map, old(occupied)@, base + item_cells(old(items)@)),
            items_spawned(*self, old(items)@),
        ensures
            tracked_cells(self.map, final(occupied)@, base + item_cells(final(items)@)),
            items_spawned(*self, final(items)@),
            final(items)@.len() <= old(items)@.len() + spec_food_count(*self.data, self.floor),
            final(items)@.len() >= old(items)@.len() + spec_food_min(*self.data, self.floor),
            references_ok(*self.data) && old(occupied)@ == base + item_cells(old(items)@) ==> final(occupied)@ == base
                + item_cells(final(items)@),
            final(occupied)@.len() <= old(occupied)@.len() + spec_food_count(*self.data, self.floor),
    {
        let fe = match food_table_index(&self.data, self.floor) {
            Some(fe) => fe,
            None => {
                return;
            },
        };
        let entry = &self.data.floors.food_spawns[fe];
        let ghost n0 = items@.len();
        let mut j: u32 = 0;
        while j < entry.count
            invariant
                self.wf(),
                data_ok(*self.data),
                fe < self.data.floors.food_spawns@.len(),
                spec_food_entry(*self.data, self.floor) == Some(fe as int),
                *entry == self.data.floors.food_spawns@[fe as int],
                entry.count > 0 ==> entry.items@.len() > 0 && food_total(entry.items@) <= usize::MAX,
                j <= entry.count,
                occupied@.len() == old(occupied)@.len() + j,
                items@.len() <= n0 + j,
                foods_defined(self.data.items@, entry.items@) ==> items@.len() == n0 + j,
                references_ok(*self.data) ==> foods_defined(self.data.items@, entry.items@),
                references_ok(*self.data) && old(occupied)@ == base + item_cells(old(items)@) ==> occupied@ == base
                    + item_cells(items@),
                n0 <= items@.len(),
                tracked_cells(self.map, occupied@, base + item_cells(items@)),
                items_spawned(*self, items@),
            decreases entry.count - j,
        {
            let ghost occ0 = occupied@;
            let ghost v0 = items@;
            let pos = place(&self.map, occupied);
            let w = weighted_index(&entry.items);
            let added = self.add_item(items, &entry.items[w].id, None, pos);
            proof {
                if foods_defined(self.data.items@, entry.items@) {
                    assert(defined(self.data.items@, entry.items@[w as int].id@));
                }
                lemma_item_step(self.map, occ0, base, v0, items@, pos, added);
                lemma_items_grow(*self, v0, items@, added, pos);
            }
            j = j + 1;
        }
        proof {
            let d = *self.data;
            assert(n0 == old(items)@.len());
            if foods_defined(d.items@, d.floors.food_spawns@[fe as int].items@) {
                assert(items@.len() == n0 + entry.count);
                assert(spec_food_min(d, self.floor) == entry.count as int);
                assert(items@.len() >= old(items)@.len() + spec_food_min(d, self.floor));
            } else {
                assert(spec_food_min(d, self.floor) == 0);
                assert(items@.len() >= old(items)@.len() + spec_food_min(d, self.floor));
            }
        }
    }

    /// Places a random number of scrolls (between the rule's bounds), each from the pool.
    #[verifier::rlimit(50)]
    #[verifier::spinoff_prover]
    fn spawn_scrolls(&self, occupied: &mut Vec<Position>, items: &mut Vec<FloorItem>, Ghost(base): Ghost<Seq<Position>>)
        requires
            self.wf(),
            data_ok(*self.data),
            spawnable(*self.data, self.floor),
            tracked_cells(self.map, old(occupied)@, base + item_cells(old(items)@)),
            items_spawned(*self, old(items)@),
        ensures
            tracked_cells(self.map, final(occupied)@, base + item_cells(final(items)@)),
            items_spawned(*self, final(items)@),
            final(items)@.len() <= old(items)@.len() + self.data.floors.scroll_spawns.max,
            final(items)@.len() >= old(items)@.len(),
            all_defined(self.data.items@, self.data.floors.scroll_spawns.pool@) ==> final(items)@.len()
                >= old(items)@.len() + self.data.floors.scroll_spawns.min,
            all_defined(self.data.items@, self.data.floors.scroll_spawns.pool@) && old(occupied)@ == base + item_cells(
                old(items)@,
            ) ==> final(occupied)@ == base + item_cells(final(items)@),
            final(occupied)@.len() <= old(occupied)@.len() + self.data.floors.scroll_spawns.max,
    {
        let sc = &self.data.floors.scroll_spawns;
        let count = random_u32_inclusive(sc.min, sc.max);
        let ghost n0 = items@.len();
        let mut j: u32 = 0;
        while j < count
            invariant
                self.wf(),
                data_ok(*self.data),
                *sc == self.data.floors.scroll_spawns,
                count <= sc.max,
                count > 0 ==> sc.pool@.len() > 0,
                j <= count,
                occupied@.len() == old(occupied)@.len() + j,
                sc.min <= count,
                items@.len() <= n0 + j,
                all_defined(self.data.items@, sc.pool@) ==> items@.len() == n0 + j,
                all_defined(self.data.items@, sc.pool@) && old(occupied)@ == base + item_cells(old(items)@) ==> occupied@
                    == base + item_cells(items@),
                n0 <= items@.len(),
                tracked_cells(self.map, occupied@, base + item_cells(items@)),
                items_spawned(*self, items@),
            decreases count - j,
        {
            let ghost occ0 = occupied@;
            let ghost v0 = items@;
            let pos = place(&self.map, occupied);
            let k = random_below(sc.pool.len());
            let added = self.add_item(items, &sc.pool[k], None, pos);
            proof {
                if all_defined(self.data.items@, sc.pool@) {
                    assert(defined(self.data.items@, sc.pool@[k as int]@));
                }
                lemma_item_step(self.map, occ0, base, v0, items@, pos, added);
                lemma_items_grow(*self, v0, items@, added, pos);
            }
            j = j + 1;
        }
    }

    /// Places a staff from the pool, with a random number of charges, with the rule's chance.
    #[verifier::rlimit(50)]
    #[verifier::spinoff_prover]
    fn spawn_staff(&self, occupied: &mut Vec<Position>, items: &mut Vec<FloorItem>, Ghost(base): Ghost<Seq<Position>>)
        requires
            self.wf(),
            data_ok(*self.data),
            spawnable(*self.data, self.floor),
            tracked_cells(self.map, old(occupied)@, base + item_cells(old(items)@)),
            items_spawned(*self, old(items)@),
        ensures
            tracked_cells(self.map, final(occupied)@, base + item_cells(final(items)@)),
            items_spawned(*self, final(items)@),
            final(items)@.len() <= old(items)@.len() + 1,
            final(items)@.len() >= old(items)@.len() + spec_staff_min(*self.data),
            all_defined(self.data.items@, self.data.floors.staff_spawns.pool@) && old(occupied)@ == base + item_cells(
                old(items)@,
            ) ==> final(occupied)@ == base + item_cells(final(items)@),
            final(occupied)@.len() <= old(occupied)@.len() + 1,
    {
        let st = &self.data.floors.staff_spawns;
        if random_ratio(st.chance, 1_000_000) {
            let ghost occ0 = occupied@;
            let ghost v0 = items@;
            let pos = place(&self.map, occupied);
            let charges = random_i32_inclusive(st.min_charges, st.max_charges);
            let k = random_below(st.pool.len());
            let added = self.add_item(items, &st.pool[k], Some(charges), pos);
            proof {
                if all_defined(self.data.items@, st.pool@) {
                    assert(defined(self.data.items@, st.pool@[k as int]@));
                }
                lemma_item_step(self.map, occ0, base, v0, items@, pos, added);
                lemma_items_grow(*self, v0, items@, added, pos);
            }
        }
    }
}

/// The food that the floor's food rule surely places: its count when every listed food is
/// defined.
pub open spec fn spec_food_min(d: MasterData, floor: u32) -> int {
    match spec_food_entry(d, floor) {
        Some(i) => if foods_defined(d.items@, d.floors.food_spawns@[i].items@) {
            d.floors.food_spawns@[i].count as int
        } else {
            0
        },
        None => 0,
    }
}

/// The staffs that surely appear: one when the chance is certain and the pool is defined.
pub open spec fn spec_staff_min(d: MasterData) -> int {
    if d.floors.staff_spawns.chance == 1_000_000 && all_defined(d.items@, d.floors.staff_spawns.pool@) {
        1
    } else {
        0
    }
}

/// The items that surely appear on `floor`: the herbs when the table has a herb, the food
/// of the floor's rule when its foods are defined, the least number of scrolls when the
/// pool is defined, and a staff when it is certain.
pub open spec fn spec_items_min(d: MasterData, floor: u32) -> int {
    (if has_herb(d.items@) { spec_herb_count(d, floor) as int } else { 0 }) + spec_food_min(d, floor) + (if all_defined(
        d.items@,
        d.floors.scroll_spawns.pool@,
    ) {
        d.floors.scroll_spawns.min as int
    } else {
        0
    }) + spec_staff_min(d)
}

/// The equipment that surely appears on `floor`: none when the floor's rule never fires,
/// one when it always does and its lists are defined.
pub open spec fn equip_certain(d: MasterData, floor: u32) -> bool {
    spec_equip_entry(d, floor) matches Some(i) && d.floors.equipment_spawns@[i].chance == 1_000_000
        && all_defined(d.equipment@, d.floors.equipment_spawns@[i].weapons@) && all_defined(
        d.equipment@,
        d.floors.equipment_spawns@[i].shields@,
    )
}

pub open spec fn equip_never(d: MasterData, floor: u32) -> bool {
    match spec_equip_entry(d, floor) {
        Some(i) => d.floors.equipment_spawns@[i].chance == 0,
        None => true,
    }
}

/// The floor of `s` holds what its spawn rules create: the monsters, items and equipment of
/// the floor's rules, within the rules' counts, and every entity, the player included, on
/// its own room cell other than the exit; when the data names no undefined id, an entity
/// goes elsewhere (to the origin) only once every such cell is taken by another.
pub open spec fn populated(s: GameState) -> bool {
    let d = *s.data;
    let f = s.floor;
    &&& s.monsters@.len() <= spec_monster_count(d.floors.monster_counts@, f)
    &&& all_defined(d.monsters@, spec_monster_list(d, f)) ==> s.monsters@.len() == spec_monster_count(
        d.floors.monster_counts@,
        f,
    )
    &&& forall|k: int| 0 <= k < s.monsters@.len() ==> monster_of(d, spec_monster_list(d, f), #[trigger] s.monsters@[k])
    &&& s.floor_items@.len() <= spec_herb_count(d, f) + spec_food_count(d, f) + d.floors.scroll_spawns.max + 1
    &&& s.floor_items@.len() >= spec_items_min(d, f)
    &&& forall|k: int| 0 <= k < s.floor_items@.len() ==> spawned_item(d, (#[trigger] s.floor_items@[k]).item)
    &&& s.floor_equips@.len() <= 1
    &&& equip_certain(d, f) ==> s.floor_equips@.len() == 1
    &&& equip_never(d, f) ==> s.floor_equips@.len() == 0
    &&& forall|k: int| 0 <= k < s.floor_equips@.len() ==> spawned_equip(d, f, (#[trigger] s.floor_equips@[k]).equip)
    &&& spread(entity_cells(s))
    &&& forall|k: int| 0 <= k < entity_cells(s).len() ==> placed_ok(s.map, #[trigger] entity_cells(s)[k])
    &&& exists|drawn: Seq<Position>| drawn.len() <= max_draws(d, f) && #[trigger] drawn_for(s.map, entity_cells(s), drawn)
    &&& references_ok(d) ==> (misplaced(s.map, entity_cells(s)) ==> rooms_taken(s.map, entity_cells(s)))
}

/// The most cells that populating floor `f` draws: one per monster, herb and food, the most
/// scrolls, one for a staff, one for a piece of equipment and the player's.
pub open spec fn max_draws(d: MasterData, f: u32) -> int {
    spec_monster_count(d.floors.monster_counts@, f) + spec_herb_count(d, f) + spec_food_count(d, f)
        + d.floors.scroll_spawns.max + 3
}

/// `drawn` holds the cells that populating a floor drew (a draw of an id that no table
/// defines takes its cell too), every entity's cell among them; an entity stands elsewhere
/// than on a free room cell of its own only once every room cell but the exit was drawn.
pub open spec fn drawn_for(map: GameMap, cells: Seq<Position>, drawn: Seq<Position>) -> bool {
    &&& forall|k: int| 0 <= k < cells.len() ==> drawn.contains(#[trigger] cells[k])
    &&& misplaced(map, cells) ==> rooms_taken(map, drawn)
}

/// What populating a floor does: the floor's entities replace those of the old floor and
/// the player moves to a free cell; nothing else changes.
pub open spec fn spawn_post(pre: GameState, post: GameState) -> bool {
    &&& post.player == (Player { pos: post.player.pos, ..pre.player })
    &&& post.map == pre.map
    &&& post.visibility == pre.visibility
    &&& post.floor == pre.floor
    &&& post.turn == pre.turn
    &&& post.data == pre.data
    &&& populated(post)
}

impl GameState {
    /// Places one piece of equipment with the chance of the floor's equipment rule: a weapon
    /// or a shield (even odds) from its lists, with a random enhancement up to its maximum.
    fn spawn_equipment(&self, occupied: &mut Vec<Position>, Ghost(base): Ghost<Seq<Position>>) -> (v: Vec<FloorEquipment>)
        requires
            self.wf(),
            data_ok(*self.data),
            spawnable(*self.data, self.floor),
            tracked_cells(self.map, old(occupied)@, base),
        ensures
            tracked_cells(self.map, final(occupied)@, base + equip_cells(v@)),
            v@.len() <= 1,
            equip_certain(*self.data, self.floor) ==> v@.len() == 1,
            equip_never(*self.data, self.floor) ==> v@.len() == 0,
            forall|k: int|
                0 <= k < v@.len() ==> spawned_equip(*self.data, self.floor, (#[trigger] v@[k]).equip) && equip_ok(
                    Some(v@[k].equip),
                ) && placed_ok(self.map, v@[k].pos),
            references_ok(*self.data) && old(occupied)@ == base ==> final(occupied)@ == base + equip_cells(v@),
            final(occupied)@.len() <= old(occupied)@.len() + 1,
    {
        let mut v: Vec<FloorEquipment> = Vec::new();
        proof {
            assert(base + equip_cells(v@) =~= base);
        }
        let ei = match equip_table_index(&self.data, self.floor) {
            Some(ei) => ei,
            None => {
                return v;
            },
        };
        let e = &self.data.floors.equipment_spawns[ei];
        if random_ratio(e.chance, 1_000_000) {
            let ghost occ0 = occupied@;
            let pos = place(&self.map, occupied);
            let enhancement = random_i32_inclusive(0, e.max_enhancement);
            let ghost wd = all_defined(self.data.equipment@, e.weapons@) && all_defined(self.data.equipment@, e.shields@);
            let id = if random_ratio(1, 2) {
                let k = random_below(e.weapons.len());
                proof {
                    if wd {
                        assert(defined(self.data.equipment@, e.weapons@[k as int]@));
                    }
                }
                &e.weapons[k]
            } else {
                let k = random_below(e.shields.len());
                proof {
                    if wd {
                        assert(defined(self.data.equipment@, e.shields@[k as int]@));
                    }
                }
                &e.shields[k]
            };
            match find_entry(&self.data.equipment, id) {
                Some(di) => {
                    let eq = Equipment::from_def(
                        self.data.equipment[di].0.as_str(),
                        &self.data.equipment[di].1,
                        enhancement,
                    );
                    v.push(FloorEquipment { equip: eq, pos });
                    proof {
                        let d = self.data;
                        lemma_track_push(self.map, occ0, base, pos);
                        assert(equip_cells(v@) =~= seq![pos]);
                        assert(base + equip_cells(v@) =~= base.push(pos));
                        assert(spec_find(d.equipment@, d.equipment@[di as int].0@) == Some(di as int));
                        assert(equip_of_entry(eq, d.equipment@[di as int].0@, d.equipment@[di as int].1));
                        assert(stat_ok(d.equipment@[di as int].1.base_value as int));
                        assert(stat_ok(d.floors.equipment_spawns@[ei as int].max_enhancement as int));
                        assert(v@[0] == (FloorEquipment { equip: eq, pos }));
                    }
                },
                None => {
                    proof {
                        lemma_track_push(self.map, occ0, base, pos);
                    }
                },
            }
        }
        v
    }

    /// Populates the current floor: monsters, herbs, food, scrolls, a staff and equipment,
    /// then the player's cell.
    #[verifier::spinoff_prover]
    pub fn spawn_entities(&mut self)
        requires
            old(self).wf(),
            old(self).limits(),
            spawnable(*old(self).data, old(self).floor),
        ensures
            final(self).wf(),
            final(self).limits(),
            spawn_post(*old(self), *final(self)),
    {
        let mut occupied: Vec<Position> = Vec::new();
        proof {
            assert(tracked_cells(self.map, occupied@, Seq::<Position>::empty()));
        }
        let ghost none: Seq<Position> = Seq::empty();
        let monsters = self.spawn_monsters(&mut occupied, Ghost(none));
        let ghost mcells = monster_cells(monsters@);
        proof {
            let d = *self.data;
            assert(none + monster_cells(monsters@) =~= mcells);
            if references_ok(d) {
                lemma_monster_list_defined(d, self.floor);
                assert(occupied@ == mcells);
            }
        }
        let mut items: Vec<FloorItem> = Vec::new();
        proof {
            assert(mcells + item_cells(items@) =~= mcells);
        }
        self.spawn_herbs(&mut occupied, &mut items, Ghost(mcells));
        let ghost n_herb = items@.len();
        self.spawn_food(&mut occupied, &mut items, Ghost(mcells));
        let ghost n_food = items@.len();
        self.spawn_scrolls(&mut occupied, &mut items, Ghost(mcells));
        let ghost n_scroll = items@.len();
        self.spawn_staff(&mut occupied, &mut items, Ghost(mcells));
        proof {
            let d = *self.data;
            let f = self.floor;
            assert(n_herb >= (if has_herb(d.items@) { spec_herb_count(d, f) as int } else { 0 }));
            if all_defined(d.items@, d.floors.scroll_spawns.pool@) {
                assert(n_scroll >= n_food + d.floors.scroll_spawns.min);
            }
            assert(items@.len() >= spec_items_min(d, f));
        }
        let ghost icells = mcells + item_cells(items@);
        proof {
            let d = *self.data;
            if references_ok(d) {
                assert(all_defined(self.data.items@, self.data.floors.scroll_spawns.pool@));
                assert(all_defined(self.data.items@, self.data.floors.staff_spawns.pool@));
                assert(occupied@ == icells);
            }
        }
        let equips = self.spawn_equipment(&mut occupied, Ghost(icells));
        let ghost occ0 = occupied@;
        let ghost ecells = icells + equip_cells(equips@);
        let ppos = place(&self.map, &mut occupied);
        proof {
            lemma_track_push(self.map, occ0, ecells, ppos);
            let d = *self.data;
            if references_ok(d) {
                assert(occupied@ == ecells.push(ppos));
            }
        }
        let monster_count = self.monster_count_for_floor(self.floor);
        self.monsters = monsters;
        self.floor_items = items;
        self.floor_equips = equips;
        self.player.pos = ppos;
        proof {
            assert(entity_cells(*self) =~= ecells.push(ppos));
            assert(drawn_for(self.map, entity_cells(*self), occupied@));
            assert(occupied@.len() <= max_draws(*self.data, self.floor));
            assert forall|k: int| 0 <= k < self.monsters@.len() implies monster_coord_ok(#[trigger] self.monsters@[k].pos) by {
                lemma_placed_coord(self.map, self.monsters@[k].pos);
            }
            assert forall|k: int| 0 <= k < self.floor_items@.len() implies coord_ok(#[trigger] self.floor_items@[k].pos) by {
                lemma_placed_coord(self.map, self.floor_items@[k].pos);
            }
            assert forall|k: int| 0 <= k < self.floor_equips@.len() implies coord_ok(#[trigger] self.floor_equips@[k].pos) by {
                lemma_placed_coord(self.map, self.floor_equips@[k].pos);
            }
        }
    }
}

/// A player as the game starts: the initial stats, full HP, facing down, with nothing
/// carried, worn or ailing (its cell aside).
pub open spec fn starting_player(p: Player, d: PlayerData) -> bool {
    let st = d.initial_stats;
    &&& p.level == st.level
    &&& p.exp == 0
    &&& p.symbol == st.symbol
    &&& p.hp == st.hp
    &&& p.max_hp == st.hp
    &&& p.attack == st.attack
    &&& p.defense == st.defense
    &&& p.direction == Direction::Down
    &&& p.inventory@.len() == 0
    &&& p.weapon is None
    &&& p.shield is None
    &&& p.fullness == st.fullness
    &&& p.max_fullness == st.max_fullness
    &&& p.kill_count == 0
    &&& p.status.confused is None
    &&& !p.status.paralyzed
    &&& p.status.attack_boost is None
}

impl GameState {
    /// A new game: a generated first floor, populated, seen from the player's cell.
    pub fn new(data: Arc<MasterData>) -> (s: Self)
        requires
            data_ok(*data),
            playable(*data),
        ensures
            s.wf(),
            s.limits(),
            s.data == data,
            s.floor == 1,
            s.turn == 0,
            s.map.width == MAP_WIDTH,
            s.map.height == MAP_HEIGHT,
            s.map.spec_is_exit(s.map.exit_pos),
            floor_connected(s.map),
            exists|areas: Seq<Area>, cells: Seq<Point>| #[trigger] dungeon_layout(s.map, areas, cells),
            starting_player(s.player, data.player),
            populated(s),
            !s.visibility.full_map,
            forall|p: Position| #[trigger] s.visibility.visible@.contains(p) <==> spec_sees(false, s.map, s.player.pos, p),
            forall|p: Position| #[trigger] s.visibility.visited@.contains(p) <==> s.visibility.visible@.contains(p),
    {
        let map = generate();
        let mut state = GameState {
            player: Player::new(&data.player),
            monsters: Vec::new(),
            floor_items: Vec::new(),
            floor_equips: Vec::new(),
            map,
            visibility: Visibility::new(),
            floor: 1,
            turn: 0,
            data,
        };
        proof {
            assert(spawnable(*state.data, 1));
        }
        state.spawn_entities();
        state.visibility.update(&state.player.pos, &state.map);
        state
    }
}

pub open spec fn effect_ok_of(d: MasterData, i: int) -> bool {
    super::dungeon::effect_ok(effect_of_def(d.items@[i].1.effect))
}

/// The definition at index `i` of the monster table stays within the stat bounds.
pub open spec fn monster_def_bounds(d: MasterData, i: int) -> bool {
    stat_ok(d.monsters@[i].1.hp as int) && stat_ok(d.monsters@[i].1.attack as int) && stat_ok(
        d.monsters@[i].1.defense as int,
    ) && stat_ok(d.monsters@[i].1.exp as int)
}

} // verus!
