use vstd::prelude::*;

use super::master_data::{find_entry, spec_find, FoodSpawnItem, MasterData};
use crate::text::{owned, push_text};

verus! {

/// Why the master data could not be loaded: a file that could not be read, a file that
/// could not be parsed (each with the reason as text), or a reference to an undefined id.
pub enum DataLoadError {
    IoError { file: String, message: String },
    ParseError { file: String, message: String },
    ValidationError(String),
}

impl DataLoadError {
    /// The error as a line of text.
    pub fn describe(&self) -> (s: String)
        ensures
            s@ == match self {
                DataLoadError::IoError { file, message } => "Failed to read '"@ + file@ + "': "@ + message@,
                DataLoadError::ParseError { file, message } => "Failed to parse '"@ + file@ + "': "@ + message@,
                DataLoadError::ValidationError(m) => "Data validation error: "@ + m@,
            },
    {
        match self {
            DataLoadError::IoError { file, message } => {
                let mut s = owned("Failed to read '");
                push_text(&mut s, file.as_str());
                push_text(&mut s, "': ");
                push_text(&mut s, message.as_str());
                s
            },
            DataLoadError::ParseError { file, message } => {
                let mut s = owned("Failed to parse '");
                push_text(&mut s, file.as_str());
                push_text(&mut s, "': ");
                push_text(&mut s, message.as_str());
                s
            },
            DataLoadError::ValidationError(m) => {
                let mut s = owned("Data validation error: ");
                push_text(&mut s, m.as_str());
                s
            },
        }
    }
}

/// `id` names an entry of the table.
pub open spec fn defined<T>(table: Seq<(String, T)>, id: Seq<char>) -> bool {
    spec_find(table, id) is Some
}

/// Every id of `ids` names an entry of the table.
pub open spec fn all_defined<T>(table: Seq<(String, T)>, ids: Seq<String>) -> bool {
    forall|j: int| 0 <= j < ids.len() ==> defined(table, (#[trigger] ids[j])@)
}

/// Every food id names an item.
pub open spec fn foods_defined<T>(table: Seq<(String, T)>, foods: Seq<FoodSpawnItem>) -> bool {
    forall|j: int| 0 <= j < foods.len() ==> defined(table, (#[trigger] foods[j]).id@)
}

/// Every id that the floor tables use is defined: the monsters of the monster table, the
/// items of the scroll, staff and food rules, and the weapons and shields of the equipment
/// rules.
pub open spec fn references_ok(d: MasterData) -> bool {
    let f = d.floors;
    &&& forall|i: int|
        0 <= i < f.monster_table@.len() ==> all_defined(d.monsters@, (#[trigger] f.monster_table@[i]).monsters@)
    &&& all_defined(d.items@, f.scroll_spawns.pool@)
    &&& all_defined(d.items@, f.staff_spawns.pool@)
    &&& forall|i: int|
        0 <= i < f.equipment_spawns@.len() ==> all_defined(d.equipment@, (#[trigger] f.equipment_spawns@[i]).weapons@)
            && all_defined(d.equipment@, f.equipment_spawns@[i].shields@)
    &&& forall|i: int| 0 <= i < f.food_spawns@.len() ==> foods_defined(d.items@, (#[trigger] f.food_spawns@[i]).items@)
}

pub open spec fn monster_missing(id: Seq<char>) -> Seq<char> {
    "Monster '"@ + id + "' referenced in floor table but not defined in monsters.ron"@
}

pub open spec fn scroll_missing(id: Seq<char>) -> Seq<char> {
    "Item '"@ + id + "' referenced in scroll pool but not defined in items.ron"@
}

pub open spec fn staff_missing(id: Seq<char>) -> Seq<char> {
    "Item '"@ + id + "' referenced in staff pool but not defined in items.ron"@
}

pub open spec fn equipment_missing(id: Seq<char>) -> Seq<char> {
    "Equipment '"@ + id + "' referenced in equipment spawns but not defined in equipment.ron"@
}

pub open spec fn food_missing(id: Seq<char>) -> Seq<char> {
    "Item '"@ + id + "' referenced in food spawns but not defined in items.ron"@
}

/// Entry `j` of `ids` is the first that the table lacks.
pub open spec fn first_gap<T>(table: Seq<(String, T)>, ids: Seq<String>, j: int) -> bool {
    &&& 0 <= j < ids.len()
    &&& !defined(table, ids[j]@)
    &&& forall|k: int| 0 <= k < j ==> defined(table, (#[trigger] ids[k])@)
}

/// Food `j` is the first whose id the table lacks.
pub open spec fn first_food_gap<T>(table: Seq<(String, T)>, foods: Seq<FoodSpawnItem>, j: int) -> bool {
    &&& 0 <= j < foods.len()
    &&& !defined(table, foods[j].id@)
    &&& forall|k: int| 0 <= k < j ==> defined(table, (#[trigger] foods[k]).id@)
}

/// Row `i` of the monster table is the first that names an undefined monster.
pub open spec fn first_bad_monster_row(d: MasterData, i: int) -> bool {
    let t = d.floors.monster_table@;
    &&& 0 <= i < t.len()
    &&& !all_defined(d.monsters@, t[i].monsters@)
    &&& forall|k: int| 0 <= k < i ==> all_defined(d.monsters@, (#[trigger] t[k]).monsters@)
}

/// Every weapon and shield of equipment rule `i` is defined.
pub open spec fn equip_row_ok(d: MasterData, i: int) -> bool {
    let e = d.floors.equipment_spawns@;
    all_defined(d.equipment@, e[i].weapons@) && all_defined(d.equipment@, e[i].shields@)
}

/// Equipment rule `i` is the first that names undefined equipment.
pub open spec fn first_bad_equip_row(d: MasterData, i: int) -> bool {
    &&& 0 <= i < d.floors.equipment_spawns@.len()
    &&& !equip_row_ok(d, i)
    &&& forall|k: int| 0 <= k < i ==> #[trigger] equip_row_ok(d, k)
}

/// Food rule `i` is the first that names an undefined item.
pub open spec fn first_bad_food_row(d: MasterData, i: int) -> bool {
    let t = d.floors.food_spawns@;
    &&& 0 <= i < t.len()
    &&& !foods_defined(d.items@, t[i].items@)
    &&& forall|k: int| 0 <= k < i ==> foods_defined(d.items@, (#[trigger] t[k]).items@)
}

/// The message for the first undefined id, checking in this order: the monster table row
/// by row, the scroll pool, the staff pool, the equipment rules (weapons, then shields, rule
/// by rule), and the food rules; `None` when every id is defined.
pub open spec fn validation_message(d: MasterData) -> Option<Seq<char>> {
    let f = d.floors;
    if exists|i: int| first_bad_monster_row(d, i) {
        let i = choose|i: int| first_bad_monster_row(d, i);
        let ids = f.monster_table@[i].monsters@;
        Some(monster_missing(ids[choose|j: int| first_gap(d.monsters@, ids, j)]@))
    } else if exists|j: int| first_gap(d.items@, f.scroll_spawns.pool@, j) {
        let ids = f.scroll_spawns.pool@;
        Some(scroll_missing(ids[choose|j: int| first_gap(d.items@, ids, j)]@))
    } else if exists|j: int| first_gap(d.items@, f.staff_spawns.pool@, j) {
        let ids = f.staff_spawns.pool@;
        Some(staff_missing(ids[choose|j: int| first_gap(d.items@, ids, j)]@))
    } else if exists|i: int| first_bad_equip_row(d, i) {
        let e = f.equipment_spawns@[choose|i: int| first_bad_equip_row(d, i)];
        if exists|j: int| first_gap(d.equipment@, e.weapons@, j) {
            Some(equipment_missing(e.weapons@[choose|j: int| first_gap(d.equipment@, e.weapons@, j)]@))
        } else {
            Some(equipment_missing(e.shields@[choose|j: int| first_gap(d.equipment@, e.shields@, j)]@))
        }
    } else if exists|i: int| first_bad_food_row(d, i) {
        let foods = f.food_spawns@[choose|i: int| first_bad_food_row(d, i)].items@;
        Some(food_missing(foods[choose|j: int| first_food_gap(d.items@, foods, j)].id@))
    } else {
        None
    }
}

proof fn lemma_first_gap<T>(table: Seq<(String, T)>, ids: Seq<String>, j: int)
    requires
        first_gap(table, ids, j),
    ensures
        (choose|j2: int| first_gap(table, ids, j2)) == j,
{
    let j2 = choose|j2: int| first_gap(table, ids, j2);
    assert(first_gap(table, ids, j2));
    if j2 < j {
        assert(defined(table, ids[j2]@));
    }
    if j2 > j {
        assert(defined(table, ids[j]@));
    }
}

proof fn lemma_first_food_gap<T>(table: Seq<(String, T)>, foods: Seq<FoodSpawnItem>, j: int)
    requires
        first_food_gap(table, foods, j),
    ensures
        (choose|j2: int| first_food_gap(table, foods, j2)) == j,
{
    let j2 = choose|j2: int| first_food_gap(table, foods, j2);
    assert(first_food_gap(table, foods, j2));
    if j2 < j {
        assert(defined(table, foods[j2].id@));
    }
    if j2 > j {
        assert(defined(table, foods[j].id@));
    }
}

proof fn lemma_first_bad_monster_row(d: MasterData, i: int)
    requires
        first_bad_monster_row(d, i),
    ensures
        (choose|i2: int| first_bad_monster_row(d, i2)) == i,
{
    let t = d.floors.monster_table@;
    let i2 = choose|i2: int| first_bad_monster_row(d, i2);
    assert(first_bad_monster_row(d, i2));
    if i2 < i {
        assert(all_defined(d.monsters@, t[i2].monsters@));
    }
    if i2 > i {
        assert(all_defined(d.monsters@, t[i].monsters@));
    }
}

proof fn lemma_first_bad_equip_row(d: MasterData, i: int)
    requires
        first_bad_equip_row(d, i),
    ensures
        (choose|i2: int| first_bad_equip_row(d, i2)) == i,
{
    let i2 = choose|i2: int| first_bad_equip_row(d, i2);
    assert(first_bad_equip_row(d, i2));
    if i2 < i {
        assert(equip_row_ok(d, i2));
    }
    if i2 > i {
        assert(equip_row_ok(d, i));
    }
}

proof fn lemma_first_bad_food_row(d: MasterData, i: int)
    requires
        first_bad_food_row(d, i),
    ensures
        (choose|i2: int| first_bad_food_row(d, i2)) == i,
{
    let t = d.floors.food_spawns@;
    let i2 = choose|i2: int| first_bad_food_row(d, i2);
    assert(first_bad_food_row(d, i2));
    if i2 < i {
        assert(foods_defined(d.items@, t[i2].items@));
    }
    if i2 > i {
        assert(foods_defined(d.items@, t[i].items@));
    }
}

/// The first id of `ids` that the table lacks, if any.
fn first_undefined<T>(table: &Vec<(String, T)>, ids: &Vec<String>) -> (r: Option<usize>)
    ensures
        r is None <==> all_defined(table@, ids@),
        r matches Some(j) ==> first_gap(table@, ids@, j as int),
{
    let mut j: usize = 0;
    while j < ids.len()
        invariant
            j <= ids@.len(),
            forall|k: int| 0 <= k < j ==> defined(table@, (#[trigger] ids@[k])@),
        decreases ids@.len() - j,
    {
        if find_entry(table, &ids[j]).is_none() {
            return Some(j);
        }
        j = j + 1;
    }
    None
}

/// The first food id that the table lacks, if any.
fn first_undefined_food<T>(table: &Vec<(String, T)>, foods: &Vec<FoodSpawnItem>) -> (r: Option<usize>)
    ensures
        r is None <==> foods_defined(table@, foods@),
        r matches Some(j) ==> first_food_gap(table@, foods@, j as int),
{
    let mut j: usize = 0;
    while j < foods.len()
        invariant
            j <= foods@.len(),
            forall|k: int| 0 <= k < j ==> defined(table@, (#[trigger] foods@[k]).id@),
        decreases foods@.len() - j,
    {
        if find_entry(table, &foods[j].id).is_none() {
            return Some(j);
        }
        j = j + 1;
    }
    None
}

/// `prefix`, the id, then `suffix`.
fn quoted(prefix: &str, id: &String, suffix: &str) -> (s: String)
    ensures
        s@ == prefix@ + id@ + suffix@,
{
    let mut s = owned(prefix);
    push_text(&mut s, id.as_str());
    push_text(&mut s, suffix);
    s
}

/// Checks that every id that the floor tables use is defined; the error names the first
/// one that is not.
pub fn validate(data: &MasterData) -> (r: Result<(), DataLoadError>)
    ensures
        r is Ok <==> references_ok(*data),
        r is Ok <==> validation_message(*data) is None,
        r matches Err(e) ==> e matches DataLoadError::ValidationError(m) && validation_message(*data) == Some(m@),
{
    let f = &data.floors;
    let mut i: usize = 0;
    while i < f.monster_table.len()
        invariant
            *f == data.floors,
            i <= f.monster_table@.len(),
            forall|k: int| 0 <= k < i ==> all_defined(data.monsters@, (#[trigger] f.monster_table@[k]).monsters@),
        decreases f.monster_table@.len() - i,
    {
        let ids = &f.monster_table[i].monsters;
        if let Some(j) = first_undefined(&data.monsters, ids) {
            let m = quoted("Monster '", &ids[j], "' referenced in floor table but not defined in monsters.ron");
            proof {
                reveal_strlit("Monster '");
                assert(m@ == monster_missing(f.monster_table@[i as int].monsters@[j as int]@));
                assert(!all_defined(data.monsters@, f.monster_table@[i as int].monsters@));
                assert(first_bad_monster_row(*data, i as int));
                lemma_first_bad_monster_row(*data, i as int);
                lemma_first_gap(data.monsters@, f.monster_table@[i as int].monsters@, j as int);
            }
            return Err(DataLoadError::ValidationError(m));
        }
        i = i + 1;
    }
    if let Some(j) = first_undefined(&data.items, &f.scroll_spawns.pool) {
        let m = quoted("Item '", &f.scroll_spawns.pool[j], "' referenced in scroll pool but not defined in items.ron");
        proof {
            assert(m@ == scroll_missing(f.scroll_spawns.pool@[j as int]@));
            lemma_first_gap(data.items@, f.scroll_spawns.pool@, j as int);
        }
        return Err(DataLoadError::ValidationError(m));
    }
    if let Some(j) = first_undefined(&data.items, &f.staff_spawns.pool) {
        let m = quoted("Item '", &f.staff_spawns.pool[j], "' referenced in staff pool but not defined in items.ron");
        proof {
            assert(m@ == staff_missing(f.staff_spawns.pool@[j as int]@));
            lemma_first_gap(data.items@, f.staff_spawns.pool@, j as int);
        }
        return Err(DataLoadError::ValidationError(m));
    }
    let mut i: usize = 0;
    while i < f.equipment_spawns.len()
        invariant
            *f == data.floors,
            i <= f.equipment_spawns@.len(),
            forall|k: int|
                0 <= k < f.monster_table@.len() ==> all_defined(data.monsters@, (#[trigger] f.monster_table@[k]).monsters@),
            all_defined(data.items@, f.scroll_spawns.pool@),
            all_defined(data.items@, f.staff_spawns.pool@),
            forall|k: int|
                0 <= k < i ==> all_defined(data.equipment@, (#[trigger] f.equipment_spawns@[k]).weapons@) && all_defined(
                    data.equipment@,
                    f.equipment_spawns@[k].shields@,
                ),
        decreases f.equipment_spawns@.len() - i,
    {
        let e = &f.equipment_spawns[i];
        if let Some(j) = first_undefined(&data.equipment, &e.weapons) {
            let m = quoted("Equipment '", &e.weapons[j], "' referenced in equipment spawns but not defined in equipment.ron");
            proof {
                assert(m@ == equipment_missing(f.equipment_spawns@[i as int].weapons@[j as int]@));
                assert(!all_defined(data.equipment@, f.equipment_spawns@[i as int].weapons@));
                assert(first_bad_equip_row(*data, i as int));
                lemma_first_bad_equip_row(*data, i as int);
                lemma_first_gap(data.equipment@, f.equipment_spawns@[i as int].weapons@, j as int);
            }
            return Err(DataLoadError::ValidationError(m));
        }
        if let Some(j) = first_undefined(&data.equipment, &e.shields) {
            let m = quoted("Equipment '", &e.shields[j], "' referenced in equipment spawns but not defined in equipment.ron");
            proof {
                assert(m@ == equipment_missing(f.equipment_spawns@[i as int].shields@[j as int]@));
                assert(!all_defined(data.equipment@, f.equipment_spawns@[i as int].shields@));
                assert(first_bad_equip_row(*data, i as int));
                lemma_first_bad_equip_row(*data, i as int);
                lemma_first_gap(data.equipment@, f.equipment_spawns@[i as int].shields@, j as int);
            }
            return Err(DataLoadError::ValidationError(m));
        }
        i = i + 1;
    }
    let mut i: usize = 0;
    while i < f.food_spawns.len()
        invariant
            *f == data.floors,
            i <= f.food_spawns@.len(),
            forall|k: int|
                0 <= k < f.monster_table@.len() ==> all_defined(data.monsters@, (#[trigger] f.monster_table@[k]).monsters@),
            all_defined(data.items@, f.scroll_spawns.pool@),
            all_defined(data.items@, f.staff_spawns.pool@),
            forall|k: int| 0 <= k < f.equipment_spawns@.len() ==> #[trigger] equip_row_ok(*data, k),
            forall|k: int| 0 <= k < i ==> foods_defined(data.items@, (#[trigger] f.food_spawns@[k]).items@),
        decreases f.food_spawns@.len() - i,
    {
        let foods = &f.food_spawns[i].items;
        if let Some(j) = first_undefined_food(&data.items, foods) {
            let m = quoted("Item '", &foods[j].id, "' referenced in food spawns but not defined in items.ron");
            proof {
                assert(m@ == food_missing(f.food_spawns@[i as int].items@[j as int].id@));
                assert(!foods_defined(data.items@, f.food_spawns@[i as int].items@));
                assert(first_bad_food_row(*data, i as int));
                lemma_first_bad_food_row(*data, i as int);
                lemma_first_food_gap(data.items@, f.food_spawns@[i as int].items@, j as int);
            }
            return Err(DataLoadError::ValidationError(m));
        }
        i = i + 1;
    }
    Ok(())
}

} // verus!
