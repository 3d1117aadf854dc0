use ayz::game::types::Position;
use ayz::game::visibility::Visibility;
use ayz::map::cell::{GameMap, MapCell, Terrain};

/// Room 1 at (1,1)-(3,3), an aisle at (4,2), room 2 at (5,1)-(7,3) with the exit at (6,2).
fn make_two_room_map() -> GameMap {
    let mut map = GameMap::new(9, 5, Position::new(6, 2));
    for y in 1..=3 {
        for x in 1..=3 {
            map.set(x, y, MapCell { terrain: Terrain::Floor { room_id: 1 } });
        }
    }
    map.set(4, 2, MapCell { terrain: Terrain::Aisle });
    for y in 1..=3 {
        for x in 5..=7 {
            map.set(x, y, MapCell { terrain: Terrain::Floor { room_id: 2 } });
        }
    }
    map.set(6, 2, MapCell { terrain: Terrain::Exit });
    map
}

#[test]
fn new_visibility_is_empty() {
    let vis = Visibility::new();
    assert!(vis.visible.is_empty());
    assert!(vis.visited.is_empty());
    assert!(!vis.full_map);
}

#[test]
fn update_in_room_reveals_entire_room() {
    let map = make_two_room_map();
    let mut vis = Visibility::new();
    let player_pos = Position::new(2, 2);

    vis.update(&player_pos, &map);

    for y in 1..=3 {
        for x in 1..=3 {
            assert!(vis.is_visible(&Position::new(x, y)), "Room 1 tile ({},{}) should be visible", x, y);
        }
    }
    assert!(!vis.is_visible(&Position::new(6, 2)));
}

#[test]
fn update_in_room_reveals_adjacent_aisle() {
    let map = make_two_room_map();
    let mut vis = Visibility::new();
    let player_pos = Position::new(3, 2);

    vis.update(&player_pos, &map);

    assert!(vis.is_visible(&Position::new(4, 2)), "Aisle adjacent to room should be visible");
}

#[test]
fn update_in_corridor_reveals_3x3() {
    let map = make_two_room_map();
    let mut vis = Visibility::new();
    let player_pos = Position::new(4, 2);

    vis.update(&player_pos, &map);

    for dy in -1..=1 {
        for dx in -1..=1 {
            let pos = Position::new(4 + dx, 2 + dy);
            assert!(vis.is_visible(&pos), "({},{}) should be visible from corridor", pos.x, pos.y);
        }
    }
}

#[test]
fn full_map_reveals_all_walkable() {
    let map = make_two_room_map();
    let mut vis = Visibility::new();
    vis.full_map = true;

    vis.update(&Position::new(2, 2), &map);

    assert!(vis.is_visible(&Position::new(1, 1)));
    assert!(vis.is_visible(&Position::new(4, 2)));
    assert!(vis.is_visible(&Position::new(5, 1)));
    assert!(!vis.is_visible(&Position::new(0, 0)));
}

#[test]
fn visited_persists_across_updates() {
    let map = make_two_room_map();
    let mut vis = Visibility::new();

    vis.update(&Position::new(2, 2), &map);
    assert!(vis.is_visited(&Position::new(1, 1)));

    vis.update(&Position::new(4, 2), &map);
    assert!(!vis.is_visible(&Position::new(1, 1)));
    assert!(vis.is_visited(&Position::new(1, 1)));
}

#[test]
fn reset_for_new_floor_clears_all() {
    let map = make_two_room_map();
    let mut vis = Visibility::new();
    vis.full_map = true;
    vis.update(&Position::new(2, 2), &map);

    vis.reset_for_new_floor();

    assert!(vis.visible.is_empty());
    assert!(vis.visited.is_empty());
    assert!(!vis.full_map);
}

#[test]
fn every_visible_cell_is_visited() {
    let map = make_two_room_map();
    let mut vis = Visibility::new();
    vis.update(&Position::new(3, 2), &map);
    for p in vis.visible.clone() {
        assert!(vis.is_visited(&p));
    }
    vis.update(&Position::new(4, 2), &map);
    for p in vis.visible.clone() {
        assert!(vis.is_visited(&p));
    }
}

#[test]
fn corridor_view_does_not_reach_two_cells() {
    let map = make_two_room_map();
    let mut vis = Visibility::new();
    vis.update(&Position::new(4, 2), &map);
    assert!(!vis.is_visible(&Position::new(2, 2)));
    assert!(!vis.is_visible(&Position::new(6, 2)));
}

#[test]
fn visibility_lists_hold_each_cell_once() {
    let map = make_two_room_map();
    let mut vis = Visibility::new();
    vis.update(&Position::new(2, 2), &map);
    vis.update(&Position::new(2, 2), &map);
    vis.update(&Position::new(4, 2), &map);
    vis.update(&Position::new(2, 2), &map);
    for list in [&vis.visible, &vis.visited] {
        for a in 0..list.len() {
            for b in (a + 1)..list.len() {
                assert_ne!(list[a], list[b]);
            }
        }
    }
    assert!(vis.visited.len() >= vis.visible.len());
}
