use ayz::game::types::Position;
use ayz::map::cell::{GameMap, MapCell, Terrain};
use ayz::map::generator::{
    area_at_weight, calc_cut_size, choose_area, create_aisle_points, create_aisles, generate, generate_rooms, Area, LinkType, Room,
};
use ayz::map::spawn::calc_spawn_pos;

#[test]
fn generate_returns_correct_dimensions() {
    let map = generate();
    assert_eq!(map.width, 100);
    assert_eq!(map.height, 50);
}

#[test]
fn generate_has_exit() {
    let map = generate();
    assert!(map.is_exit(&map.exit_pos));
}

#[test]
fn generate_has_walkable_tiles() {
    let map = generate();
    let room_positions = map.room_positions();
    assert!(!room_positions.is_empty(), "Map must have at least one room tile");
}

#[test]
fn generate_exit_is_walkable_position() {
    let map = generate();
    let exit = map.exit_pos;
    assert!(exit.x >= 0 && exit.x < map.width as i32);
    assert!(exit.y >= 0 && exit.y < map.height as i32);
}

#[test]
fn generate_multiple_rooms() {
    for _ in 0..3 {
        let map = generate();
        let positions = map.room_positions();
        assert!(positions.len() > 20, "Expected many room tiles, got {}", positions.len());
    }
}

#[test]
fn generate_has_aisles() {
    let map = generate();
    let mut aisle_count = 0;
    for y in 0..map.height {
        for x in 0..map.width {
            if let Some(cell) = map.get(&Position::new(x as i32, y as i32)) {
                if cell.terrain == Terrain::Aisle {
                    aisle_count += 1;
                }
            }
        }
    }
    assert!(aisle_count > 0, "Map must have corridors connecting rooms");
}

#[test]
fn generated_exit_is_on_a_walkable_cell() {
    for _ in 0..5 {
        let map = generate();
        assert!(map.is_walkable(&map.exit_pos));
    }
}

#[test]
fn generated_map_has_exactly_one_exit() {
    for _ in 0..5 {
        let map = generate();
        let mut exits = Vec::new();
        for y in 0..map.height {
            for x in 0..map.width {
                if map.cells[y][x].terrain == Terrain::Exit {
                    exits.push((x as i32, y as i32));
                }
            }
        }
        assert_eq!(exits, vec![(map.exit_pos.x, map.exit_pos.y)]);
    }
}

#[test]
fn generated_floor_is_connected() {
    for _ in 0..10 {
        let map = generate();
        let (w, h) = (map.width as i32, map.height as i32);
        let walkable = |x: i32, y: i32| x >= 0 && y >= 0 && x < w && y < h && map.is_walkable(&Position::new(x, y));
        let mut seen = vec![vec![false; map.width]; map.height];
        let mut stack = vec![(map.exit_pos.x, map.exit_pos.y)];
        seen[map.exit_pos.y as usize][map.exit_pos.x as usize] = true;
        while let Some((x, y)) = stack.pop() {
            for (dx, dy) in [(1, 0), (-1, 0), (0, 1), (0, -1)] {
                let (nx, ny) = (x + dx, y + dy);
                if walkable(nx, ny) && !seen[ny as usize][nx as usize] {
                    seen[ny as usize][nx as usize] = true;
                    stack.push((nx, ny));
                }
            }
        }
        for y in 0..h {
            for x in 0..w {
                if walkable(x, y) {
                    assert!(seen[y as usize][x as usize], "cell ({}, {}) cannot be reached", x, y);
                }
            }
        }
    }
}

#[test]
fn cut_size_values() {
    assert_eq!(calc_cut_size(20), 10);
    assert_eq!(calc_cut_size(15), 7);
    assert_eq!(calc_cut_size(0), 0);
}

fn make_small_map() -> GameMap {
    let mut map = GameMap::new(5, 5, Position::new(4, 4));
    for y in 1..=3 {
        for x in 1..=3 {
            map.set(x, y, MapCell { terrain: Terrain::Floor { room_id: 1 } });
        }
    }
    map.set(4, 4, MapCell { terrain: Terrain::Exit });
    map
}

#[test]
fn spawn_pos_avoids_occupied_and_exit() {
    let map = make_small_map();
    let mut occupied = Vec::new();
    for y in 1..=3 {
        for x in 1..=3 {
            if !(x == 1 && y == 1) {
                occupied.push(Position::new(x as i32, y as i32));
            }
        }
    }
    let pos = calc_spawn_pos(&map, &occupied);
    assert_eq!(pos, Position::new(1, 1));
}

#[test]
fn spawn_pos_returns_zero_when_no_candidates() {
    let map = GameMap::new(3, 3, Position::new(0, 0));
    let occupied = Vec::new();
    let pos = calc_spawn_pos(&map, &occupied);
    assert_eq!(pos, Position::zero());
}

#[test]
fn spawn_pos_is_in_room() {
    let map = make_small_map();
    let occupied = Vec::new();
    let pos = calc_spawn_pos(&map, &occupied);
    assert!(pos.x >= 1 && pos.x <= 3 && pos.y >= 1 && pos.y <= 3);
}

#[test]
fn generated_areas_tile_the_map_and_hold_their_rooms() {
    for _ in 0..5 {
        let mut area = Area::new();
        area.w = 100;
        area.h = 50;
        let mut areas = vec![area];
        let first = choose_area(&areas);
        assert_eq!(first, 0);
        generate_rooms(&mut areas);
        let mut grid = vec![vec![0u32; 100]; 50];
        for a in &areas {
            for y in a.y..a.y + a.h {
                for x in a.x..a.x + a.w {
                    grid[y][x] += 1;
                }
            }
            assert!(a.room.w >= 3 && a.room.h >= 3);
            assert!(a.x + 2 <= a.room.x && a.room.x + a.room.w + 2 <= a.x + a.w);
            assert!(a.y + 2 <= a.room.y && a.room.y + a.room.h + 2 <= a.y + a.h);
        }
        assert!(grid.iter().all(|row| row.iter().all(|&c| c == 1)));
        assert!(areas.len() >= 2);
        for p in create_aisles(&areas) {
            assert!(p.x <= 100 && p.y <= 50);
        }
    }
}

#[test]
fn partition_links_are_mutual_and_reach_every_area() {
    for _ in 0..10 {
        let mut area = Area::new();
        area.w = 100;
        area.h = 50;
        let mut areas = vec![area];
        generate_rooms(&mut areas);
        let n = areas.len();
        let sides = |a: &Area| [a.link.up.clone(), a.link.down.clone(), a.link.left.clone(), a.link.right.clone()];
        for (p, a) in areas.iter().enumerate() {
            let lists = sides(a);
            for (s, list) in lists.iter().enumerate() {
                let back = [1, 0, 3, 2][s];
                for &t in list {
                    assert!(t < n && t != p);
                    assert_eq!(list.iter().filter(|&&x| x == t).count(), 1);
                    assert!(sides(&areas[t])[back].contains(&p), "area {} lists {} but not back", p, t);
                }
            }
        }
        let mut seen = vec![false; n];
        seen[0] = true;
        let mut stack = vec![0usize];
        while let Some(p) = stack.pop() {
            for list in sides(&areas[p]).iter() {
                for &t in list {
                    if !seen[t] {
                        seen[t] = true;
                        stack.push(t);
                    }
                }
            }
        }
        assert!(seen.iter().all(|&s| s));
    }
}

#[test]
fn aisle_points_form_an_elbow() {
    let a = Room { x: 2, y: 2, w: 3, h: 3, idx: 0 };
    let b = Room { x: 10, y: 6, w: 3, h: 3, idx: 1 };
    let pts: Vec<(usize, usize)> = create_aisle_points(&a, &b, LinkType::Right).iter().map(|p| (p.x, p.y)).collect();
    assert_eq!(pts, vec![(5, 3), (6, 3), (7, 3), (7, 4), (7, 5), (7, 6), (7, 7), (8, 7), (9, 7)]);
    let back: Vec<(usize, usize)> = create_aisle_points(&b, &a, LinkType::Left).iter().map(|p| (p.x, p.y)).collect();
    assert_eq!(back, pts);
    let c = Room { x: 3, y: 12, w: 5, h: 3, idx: 2 };
    let down: Vec<(usize, usize)> = create_aisle_points(&a, &c, LinkType::Down).iter().map(|p| (p.x, p.y)).collect();
    assert_eq!(down, vec![(3, 5), (3, 6), (3, 7), (3, 8), (4, 8), (5, 8), (5, 9), (5, 10), (5, 11)]);
}

#[test]
fn aisle_from_a_room_at_the_corner() {
    let a = Room { x: 0, y: 0, w: 3, h: 3, idx: 0 };
    let b = Room { x: 6, y: 4, w: 3, h: 3, idx: 1 };
    let pts: Vec<(usize, usize)> = create_aisle_points(&a, &b, LinkType::Right).iter().map(|p| (p.x, p.y)).collect();
    assert_eq!(pts, vec![(3, 1), (4, 1), (4, 2), (4, 3), (4, 4), (4, 5), (5, 5)]);
    let back: Vec<(usize, usize)> = create_aisle_points(&b, &a, LinkType::Left).iter().map(|p| (p.x, p.y)).collect();
    assert_eq!(back, pts);
}

#[test]
fn cutting_makes_ten_areas() {
    for _ in 0..5 {
        let mut area = Area::new();
        area.w = 100;
        area.h = 50;
        let mut areas = vec![area];
        generate_rooms(&mut areas);
        assert_eq!(areas.len(), 10);
    }
}

#[test]
fn drawn_value_picks_the_area_by_running_surface() {
    let mut small = Area::new();
    small.w = 12;
    small.h = 12;
    let mut left = Area::new();
    left.x = 12;
    left.w = 50;
    left.h = 25;
    left.idx = 1;
    let mut right = Area::new();
    right.x = 62;
    right.w = 25;
    right.h = 50;
    right.idx = 2;
    let areas = vec![small, left, right];
    assert_eq!(area_at_weight(&areas, 0), 1);
    assert_eq!(area_at_weight(&areas, 1249), 1);
    assert_eq!(area_at_weight(&areas, 1250), 2);
    assert_eq!(area_at_weight(&areas, 2499), 2);
}
