use vstd::prelude::*;

use super::renderer::{dim_char, spec_dim_char};
use crate::game::dungeon::GameState;
use crate::game::entity::{FloorEquipment, FloorItem, Monster};
use crate::game::types::Position;

verus! {

/// The symbol of the last of the first `n` monsters standing at `p`, if any.
pub open spec fn monster_glyph(ms: Seq<Monster>, p: Position, n: int) -> Option<char>
    decreases n,
{
    if n <= 0 {
        None
    } else if ms[n - 1].pos == p {
        Some(ms[n - 1].symbol)
    } else {
        monster_glyph(ms, p, n - 1)
    }
}

/// The symbol of the last of the first `n` pieces of floor equipment at `p`, if any.
pub open spec fn equip_glyph(es: Seq<FloorEquipment>, p: Position, n: int) -> Option<char>
    decreases n,
{
    if n <= 0 {
        None
    } else if es[n - 1].pos == p {
        Some(es[n - 1].equip.symbol)
    } else {
        equip_glyph(es, p, n - 1)
    }
}

/// The symbol of the last of the first `n` floor items at `p`, if any.
pub open spec fn item_glyph(fs: Seq<FloorItem>, p: Position, n: int) -> Option<char>
    decreases n,
{
    if n <= 0 {
        None
    } else if fs[n - 1].pos == p {
        Some(fs[n - 1].item.symbol)
    } else {
        item_glyph(fs, p, n - 1)
    }
}

/// What the screen shows at cell `p`: the player; else, in sight, a monster, else a piece of
/// equipment, else an item, else the terrain; else, remembered, the terrain dimmed; else
/// nothing.
pub open spec fn spec_screen_glyph(s: GameState, p: Position) -> char {
    if p == s.player.pos {
        s.player.symbol
    } else if s.visibility.visible@.contains(p) {
        match monster_glyph(s.monsters@, p, s.monsters@.len() as int) {
            Some(c) => c,
            None => match equip_glyph(s.floor_equips@, p, s.floor_equips@.len() as int) {
                Some(c) => c,
                None => match item_glyph(s.floor_items@, p, s.floor_items@.len() as int) {
                    Some(c) => c,
                    None => s.map.spec_render_char(p),
                },
            },
        }
    } else if s.visibility.visited@.contains(p) {
        spec_dim_char(s.map.spec_render_char(p))
    } else {
        ' '
    }
}

fn find_monster_glyph(ms: &Vec<Monster>, p: &Position) -> (r: Option<char>)
    ensures
        r == monster_glyph(ms@, *p, ms@.len() as int),
{
    let mut r: Option<char> = None;
    let mut i: usize = 0;
    while i < ms.len()
        invariant
            i <= ms@.len(),
            r == monster_glyph(ms@, *p, i as int),
        decreases ms@.len() - i,
    {
        if ms[i].pos == *p {
            r = Some(ms[i].symbol);
        }
        i = i + 1;
    }
    r
}

fn find_equip_glyph(es: &Vec<FloorEquipment>, p: &Position) -> (r: Option<char>)
    ensures
        r == equip_glyph(es@, *p, es@.len() as int),
{
    let mut r: Option<char> = None;
    let mut i: usize = 0;
    while i < es.len()
        invariant
            i <= es@.len(),
            r == equip_glyph(es@, *p, i as int),
        decreases es@.len() - i,
    {
        if es[i].pos == *p {
            r = Some(es[i].equip.symbol);
        }
        i = i + 1;
    }
    r
}

fn find_item_glyph(fs: &Vec<FloorItem>, p: &Position) -> (r: Option<char>)
    ensures
        r == item_glyph(fs@, *p, fs@.len() as int),
{
    let mut r: Option<char> = None;
    let mut i: usize = 0;
    while i < fs.len()
        invariant
            i <= fs@.len(),
            r == item_glyph(fs@, *p, i as int),
        decreases fs@.len() - i,
    {
        if fs[i].pos == *p {
            r = Some(fs[i].item.symbol);
        }
        i = i + 1;
    }
    r
}

/// The character that the screen shows at a cell of the map.
pub fn screen_glyph(state: &GameState, pos: &Position) -> (c: char)
    requires
        state.wf(),
    ensures
        c == spec_screen_glyph(*state, *pos),
{
    if *pos == state.player.pos {
        state.player.symbol
    } else if state.visibility.is_visible(pos) {
        match find_monster_glyph(&state.monsters, pos) {
            Some(c) => c,
            None => match find_equip_glyph(&state.floor_equips, pos) {
                Some(c) => c,
                None => match find_item_glyph(&state.floor_items, pos) {
                    Some(c) => c,
                    None => state.map.render_char(pos),
                },
            },
        }
    } else if state.visibility.is_visited(pos) {
        dim_char(state.map.render_char(pos))
    } else {
        ' '
    }
}

} // verus!
