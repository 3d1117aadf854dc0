use vstd::prelude::*;

use super::cell::{terrain_walkable, GameMap, Terrain};
use super::generator::{
    aisle_cells, aisle_path, aisle_points, aisle_reach, aisle_step, along, area_ok, areas_ok, at_cell, corridor,
    corridor_between, corridor_step, corridors_of, dungeon_layout, in_room, is_exit_cell, joins, linked, on_aisle,
    room_ok, Aisle, Area, LinkType, Point, Room, MAP_HEIGHT, MAP_WIDTH,
};
use super::links::{links_wf, lists, touching};

verus! {

/// Cells `(x0, y0)` and `(x1, y1)` share a side.
pub open spec fn next_to(x0: int, y0: int, x1: int, y1: int) -> bool {
    ||| x0 == x1 && (y0 - y1 == 1 || y1 - y0 == 1)
    ||| y0 == y1 && (x0 - x1 == 1 || x1 - x0 == 1)
}

/// Cell `(x, y)` lies in the map and can be walked on.
pub open spec fn open_cell(map: GameMap, x: int, y: int) -> bool {
    map.in_bounds(x, y) && terrain_walkable(map.terrain(x, y))
}

/// Step `k` of `path` goes to a neighbouring cell.
pub open spec fn walk_step(path: Seq<(int, int)>, k: int) -> bool {
    next_to(path[k].0, path[k].1, path[k + 1].0, path[k + 1].1)
}

/// `path` goes from open cell to neighbouring open cell.
pub open spec fn walk(map: GameMap, path: Seq<(int, int)>) -> bool {
    &&& path.len() >= 1
    &&& forall|k: int| 0 <= k < path.len() ==> open_cell(map, (#[trigger] path[k]).0, path[k].1)
    &&& forall|k: int| 0 <= k < path.len() - 1 ==> #[trigger] walk_step(path, k)
}

/// Cell `(x, y)` can be reached from `(x0, y0)` walking from open cell to open cell.
pub open spec fn reachable(map: GameMap, x0: int, y0: int, x: int, y: int) -> bool {
    exists|path: Seq<(int, int)>| #[trigger] walk(map, path) && path[0] == (x0, y0) && path.last() == (x, y)
}

pub proof fn lemma_reach_start(map: GameMap, x0: int, y0: int)
    requires
        open_cell(map, x0, y0),
    ensures
        reachable(map, x0, y0, x0, y0),
{
    let path = seq![(x0, y0)];
    assert(walk(map, path));
}

/// One more step to an open neighbour.
pub proof fn lemma_reach_next(map: GameMap, x0: int, y0: int, px: int, py: int, x: int, y: int)
    requires
        reachable(map, x0, y0, px, py),
        next_to(px, py, x, y),
        open_cell(map, x, y),
    ensures
        reachable(map, x0, y0, x, y),
{
    let path = choose|path: Seq<(int, int)>| #[trigger] walk(map, path) && path[0] == (x0, y0) && path.last() == (px, py);
    let p2 = path.push((x, y));
    assert forall|k: int| 0 <= k < p2.len() implies open_cell(map, (#[trigger] p2[k]).0, p2[k].1) by {
        if k < path.len() {
            assert(p2[k] == path[k]);
        }
    }
    assert forall|k: int| 0 <= k < p2.len() - 1 implies #[trigger] walk_step(p2, k) by {
        if k < path.len() - 1 {
            assert(walk_step(path, k));
            assert(p2[k] == path[k] && p2[k + 1] == path[k + 1]);
        } else {
            assert(p2[k] == (px, py) && p2[k + 1] == (x, y));
        }
    }
    assert(walk(map, p2));
    assert(p2[0] == (x0, y0));
}

/// Walking along a row or a column of open cells reaches every cell of it.
pub proof fn lemma_reach_line(map: GameMap, x0: int, y0: int, x1: int, y1: int, x2: int, y2: int)
    requires
        x1 == x2 || y1 == y2,
        reachable(map, x0, y0, x1, y1),
        x1 == x2 ==> forall|y: int|
            (y1 <= y <= y2 || y2 <= y <= y1) ==> #[trigger] open_cell(map, x1, y),
        y1 == y2 ==> forall|x: int|
            (x1 <= x <= x2 || x2 <= x <= x1) ==> #[trigger] open_cell(map, x, y1),
    ensures
        reachable(map, x0, y0, x2, y2),
    decreases (if x1 < x2 { x2 - x1 } else { x1 - x2 }) + (if y1 < y2 { y2 - y1 } else { y1 - y2 }),
{
    if x1 == x2 && y1 == y2 {
    } else if x1 == x2 {
        let ny = if y1 < y2 { y1 + 1 } else { y1 - 1 };
        assert(open_cell(map, x1, ny));
        lemma_reach_next(map, x0, y0, x1, y1, x1, ny);
        lemma_reach_line(map, x0, y0, x1, ny, x2, y2);
    } else {
        let nx = if x1 < x2 { x1 + 1 } else { x1 - 1 };
        assert(open_cell(map, nx, y1));
        lemma_reach_next(map, x0, y0, x1, y1, nx, y1);
        lemma_reach_line(map, x0, y0, nx, y1, x2, y2);
    }
}

/// From one reached cell of a room of open cells, every cell of the room is reached.
pub proof fn lemma_reach_room(map: GameMap, x0: int, y0: int, r: Room, cx: int, cy: int, tx: int, ty: int)
    requires
        reachable(map, x0, y0, cx, cy),
        in_room(r, cx, cy),
        in_room(r, tx, ty),
        forall|x: int, y: int| #[trigger] in_room(r, x, y) ==> open_cell(map, x, y),
    ensures
        reachable(map, x0, y0, tx, ty),
    decreases (if cx < tx { tx - cx } else { cx - tx }) + (if cy < ty { ty - cy } else { cy - ty }),
{
    if cx == tx && cy == ty {
    } else if cx != tx {
        let nx = if cx < tx { cx + 1 } else { cx - 1 };
        assert(in_room(r, nx, cy));
        lemma_reach_next(map, x0, y0, cx, cy, nx, cy);
        lemma_reach_room(map, x0, y0, r, nx, cy, tx, ty);
    } else {
        let ny = if cy < ty { cy + 1 } else { cy - 1 };
        assert(in_room(r, cx, ny));
        lemma_reach_next(map, x0, y0, cx, cy, cx, ny);
        lemma_reach_room(map, x0, y0, r, cx, ny, tx, ty);
    }
}

/// The contents of one step of a corridor.
proof fn lemma_step_cells(down: bool, u: int, turn: int, s: int, e: int, p: Point)
    ensures
        corridor_step(down, u, turn, s, e).contains(p) <==> {
            ||| u < turn && p == along(down, u, s)
            ||| u == turn && exists|w: int| #![trigger along(down, u, w)]
                ((s <= w <= e || e <= w <= s) && p == along(down, u, w))
            ||| u > turn && p == along(down, u, e)
        },
{
    let st = corridor_step(down, u, turn, s, e);
    let lo = if s < e { s } else { e };
    let hi = if s < e { e } else { s };
    if u < turn {
        if p == along(down, u, s) {
            assert(st[0] == p);
        }
    } else if u == turn {
        if st.contains(p) {
            let k = choose|k: int| 0 <= k < st.len() && st[k] == p;
            assert(st[k] == along(down, u, lo + k));
            assert(s <= lo + k <= e || e <= lo + k <= s);
        }
        if exists|w: int| #![trigger along(down, u, w)] ((s <= w <= e || e <= w <= s) && p == along(down, u, w)) {
            let w = choose|w: int| #![trigger along(down, u, w)] ((s <= w <= e || e <= w <= s) && p == along(down, u, w));
            assert(st[w - lo] == along(down, u, w));
        }
    } else {
        if p == along(down, u, e) {
            assert(st[0] == p);
        }
    }
}

/// A corridor holds exactly the cells of its steps.
proof fn lemma_corridor_cells(down: bool, u0: int, last: int, turn: int, s: int, e: int, p: Point)
    ensures
        corridor(down, u0, last, turn, s, e).contains(p) <==> exists|u: int|
            u0 <= u <= last && #[trigger] corridor_step(down, u, turn, s, e).contains(p),
    decreases last + 1 - u0,
{
    if u0 <= last {
        let st = corridor_step(down, u0, turn, s, e);
        let rest = corridor(down, u0 + 1, last, turn, s, e);
        lemma_corridor_cells(down, u0 + 1, last, turn, s, e, p);
        let c = st + rest;
        assert(corridor(down, u0, last, turn, s, e) == c);
        if c.contains(p) {
            let k = choose|k: int| 0 <= k < c.len() && c[k] == p;
            if k < st.len() {
                assert(st[k] == p);
                assert(st.contains(p));
            } else {
                assert(rest[k - st.len()] == p);
                assert(rest.contains(p));
            }
        }
        if exists|u: int| u0 <= u <= last && #[trigger] corridor_step(down, u, turn, s, e).contains(p) {
            let u = choose|u: int| u0 <= u <= last && #[trigger] corridor_step(down, u, turn, s, e).contains(p);
            if u == u0 {
                let k = choose|k: int| 0 <= k < st.len() && st[k] == p;
                assert(c[k] == p);
            } else {
                assert(rest.contains(p));
                let k = choose|k: int| 0 <= k < rest.len() && rest[k] == p;
                assert(c[st.len() + k] == p);
            }
        }
    } else {
        assert(corridor(down, u0, last, turn, s, e) =~= Seq::<Point>::empty());
    }
}

/// The column of the cell at step `u` and offset `w` of a corridor (going down when `down`).
pub open spec fn cx(down: bool, u: int, w: int) -> int {
    if down { w } else { u }
}

/// The row of that cell.
pub open spec fn cy(down: bool, u: int, w: int) -> int {
    if down { u } else { w }
}

/// Along a corridor: from step `u1` to step `u2` at offset `w`.
proof fn lemma_reach_uline(map: GameMap, x0: int, y0: int, down: bool, w: int, u1: int, u2: int)
    requires
        reachable(map, x0, y0, cx(down, u1, w), cy(down, u1, w)),
        forall|u: int| (u1 <= u <= u2 || u2 <= u <= u1) ==> #[trigger] open_cell(map, cx(down, u, w), cy(down, u, w)),
    ensures
        reachable(map, x0, y0, cx(down, u2, w), cy(down, u2, w)),
    decreases if u1 < u2 { u2 - u1 } else { u1 - u2 },
{
    if u1 != u2 {
        let nu = if u1 < u2 { u1 + 1 } else { u1 - 1 };
        assert(open_cell(map, cx(down, nu, w), cy(down, nu, w)));
        lemma_reach_next(map, x0, y0, cx(down, u1, w), cy(down, u1, w), cx(down, nu, w), cy(down, nu, w));
        lemma_reach_uline(map, x0, y0, down, w, nu, u2);
    }
}

/// Across a corridor: at step `u`, from offset `w1` to offset `w2`.
proof fn lemma_reach_wline(map: GameMap, x0: int, y0: int, down: bool, u: int, w1: int, w2: int)
    requires
        reachable(map, x0, y0, cx(down, u, w1), cy(down, u, w1)),
        forall|w: int| (w1 <= w <= w2 || w2 <= w <= w1) ==> #[trigger] open_cell(map, cx(down, u, w), cy(down, u, w)),
    ensures
        reachable(map, x0, y0, cx(down, u, w2), cy(down, u, w2)),
    decreases if w1 < w2 { w2 - w1 } else { w1 - w2 },
{
    if w1 != w2 {
        let nw = if w1 < w2 { w1 + 1 } else { w1 - 1 };
        assert(open_cell(map, cx(down, u, nw), cy(down, u, nw)));
        lemma_reach_next(map, x0, y0, cx(down, u, w1), cy(down, u, w1), cx(down, u, nw), cy(down, u, nw));
        lemma_reach_wline(map, x0, y0, down, u, nw, w2);
    }
}

/// The first step of the corridor from room `a`: the line just past its far side.
pub open spec fn c_first(a: Room, down: bool) -> int {
    if down { a.y + a.h } else { a.x + a.w }
}

/// The last step of the corridor into room `b`: the line just before its near side.
pub open spec fn c_last(b: Room, down: bool) -> int {
    if down { b.y - 1 } else { b.x - 1 }
}

/// The middle of a room across the corridor's direction.
pub open spec fn c_mid(r: Room, down: bool) -> int {
    if down { (r.x + r.x + r.w) / 2 } else { (r.y + r.y + r.h) / 2 }
}

/// Two rooms in the map, the second past the first in the corridor's direction.
pub open spec fn corridor_fits(a: Room, b: Room, down: bool) -> bool {
    &&& a.w >= 1 && a.h >= 1 && b.w >= 1 && b.h >= 1
    &&& a.x + a.w <= MAP_WIDTH && b.x + b.w <= MAP_WIDTH
    &&& a.y + a.h <= MAP_HEIGHT && b.y + b.h <= MAP_HEIGHT
    &&& c_first(a, down) <= c_last(b, down)
}

/// The cell at step `u` and offset `w` lies on the corridor between `a` and `b`.
proof fn lemma_on_corridor(a: Room, b: Room, down: bool, u: int, w: int)
    requires
        corridor_fits(a, b, down),
        c_first(a, down) <= u <= c_last(b, down),
        ({
            let turn = (c_first(a, down) + c_last(b, down)) / 2;
            let s = c_mid(a, down);
            let e = c_mid(b, down);
            ||| u < turn && w == s
            ||| u == turn && (s <= w <= e || e <= w <= s)
            ||| u > turn && w == e
        }),
    ensures
        corridor_between(a, b, down).contains(along(down, u, w)),
        along(down, u, w).x as int == cx(down, u, w),
        along(down, u, w).y as int == cy(down, u, w),
{
    let first = c_first(a, down);
    let last = c_last(b, down);
    let turn = (first + last) / 2;
    let s = c_mid(a, down);
    let e = c_mid(b, down);
    let p = along(down, u, w);
    assert(corridor_between(a, b, down) == corridor(down, first, last, turn, s, e));
    lemma_step_cells(down, u, turn, s, e, p);
    if u == turn {
        assert(corridor_step(down, u, turn, s, e).contains(p));
    }
    lemma_corridor_cells(down, first, last, turn, s, e, p);
}

/// Every cell of the corridor between `a` and `b` is at some step and offset of it.
proof fn lemma_corridor_cell(a: Room, b: Room, down: bool, p: Point)
    requires
        corridor_fits(a, b, down),
        corridor_between(a, b, down).contains(p),
    ensures
        exists|u: int, w: int|
            {
                let turn = (c_first(a, down) + c_last(b, down)) / 2;
                let s = c_mid(a, down);
                let e = c_mid(b, down);
                &&& c_first(a, down) <= u <= c_last(b, down)
                &&& (u < turn && w == s) || (u == turn && (s <= w <= e || e <= w <= s)) || (u > turn && w == e)
                &&& #[trigger] along(down, u, w) == p
            },
{
    let first = c_first(a, down);
    let last = c_last(b, down);
    let turn = (first + last) / 2;
    let s = c_mid(a, down);
    let e = c_mid(b, down);
    assert(corridor_between(a, b, down) == corridor(down, first, last, turn, s, e));
    lemma_corridor_cells(down, first, last, turn, s, e, p);
    let u = choose|u: int| first <= u <= last && #[trigger] corridor_step(down, u, turn, s, e).contains(p);
    lemma_step_cells(down, u, turn, s, e, p);
    if u < turn {
        assert(along(down, u, s) == p);
    } else if u == turn {
        let w = choose|w: int| #![trigger along(down, u, w)] ((s <= w <= e || e <= w <= s) && p == along(down, u, w));
        assert(along(down, u, w) == p);
    } else {
        assert(along(down, u, e) == p);
    }
}

/// The rooms and the corridor between them can be walked on.
pub open spec fn corridor_open(map: GameMap, a: Room, b: Room, down: bool) -> bool {
    &&& forall|x: int, y: int| #[trigger] in_room(a, x, y) ==> open_cell(map, x, y)
    &&& forall|x: int, y: int| #[trigger] in_room(b, x, y) ==> open_cell(map, x, y)
    &&& forall|p: Point| #[trigger] corridor_between(a, b, down).contains(p) ==> open_cell(map, p.x as int, p.y as int)
}

/// The cells at the steps of a corridor can be walked on: the line out of room `a`, the
/// turn, and the line into room `b`.
proof fn lemma_corridor_lines_open(map: GameMap, a: Room, b: Room, down: bool)
    requires
        corridor_fits(a, b, down),
        corridor_open(map, a, b, down),
    ensures
        ({
            let first = c_first(a, down);
            let last = c_last(b, down);
            let turn = (first + last) / 2;
            let s = c_mid(a, down);
            let e = c_mid(b, down);
            &&& forall|u: int| first - 1 <= u <= turn ==> #[trigger] open_cell(map, cx(down, u, s), cy(down, u, s))
            &&& forall|w: int| (s <= w <= e || e <= w <= s) ==> #[trigger] open_cell(map, cx(down, turn, w), cy(down, turn, w))
            &&& forall|u: int| turn <= u <= last + 1 ==> #[trigger] open_cell(map, cx(down, u, e), cy(down, u, e))
            &&& in_room(a, cx(down, first - 1, s), cy(down, first - 1, s))
            &&& in_room(b, cx(down, last + 1, e), cy(down, last + 1, e))
        }),
{
    let first = c_first(a, down);
    let last = c_last(b, down);
    let turn = (first + last) / 2;
    let s = c_mid(a, down);
    let e = c_mid(b, down);
    assert(in_room(a, cx(down, first - 1, s), cy(down, first - 1, s)));
    assert(in_room(b, cx(down, last + 1, e), cy(down, last + 1, e)));
    assert forall|u: int| first - 1 <= u <= turn implies #[trigger] open_cell(map, cx(down, u, s), cy(down, u, s)) by {
        if u == first - 1 {
            assert(in_room(a, cx(down, u, s), cy(down, u, s)));
        } else {
            lemma_on_corridor(a, b, down, u, s);
            assert(corridor_between(a, b, down).contains(along(down, u, s)));
        }
    }
    assert forall|w: int| (s <= w <= e || e <= w <= s) implies #[trigger] open_cell(map, cx(down, turn, w), cy(down, turn, w)) by {
        lemma_on_corridor(a, b, down, turn, w);
        assert(corridor_between(a, b, down).contains(along(down, turn, w)));
    }
    assert forall|u: int| turn <= u <= last + 1 implies #[trigger] open_cell(map, cx(down, u, e), cy(down, u, e)) by {
        if u == last + 1 {
            assert(in_room(b, cx(down, u, e), cy(down, u, e)));
        } else {
            lemma_on_corridor(a, b, down, u, e);
            assert(corridor_between(a, b, down).contains(along(down, u, e)));
        }
    }
}

/// From a reached cell of room `a`, the corridor and every cell of room `b` are reached.
pub proof fn lemma_corridor_forward(map: GameMap, x0: int, y0: int, a: Room, b: Room, down: bool, sx: int, sy: int)
    requires
        corridor_fits(a, b, down),
        corridor_open(map, a, b, down),
        in_room(a, sx, sy),
        reachable(map, x0, y0, sx, sy),
    ensures
        forall|x: int, y: int| #[trigger] in_room(b, x, y) ==> reachable(map, x0, y0, x, y),
        forall|p: Point| #[trigger] corridor_between(a, b, down).contains(p) ==> reachable(map, x0, y0, p.x as int, p.y as int),
{
    let first = c_first(a, down);
    let last = c_last(b, down);
    let turn = (first + last) / 2;
    let s = c_mid(a, down);
    let e = c_mid(b, down);
    lemma_corridor_lines_open(map, a, b, down);
    lemma_reach_room(map, x0, y0, a, sx, sy, cx(down, first - 1, s), cy(down, first - 1, s));
    lemma_reach_uline(map, x0, y0, down, s, first - 1, turn);
    lemma_reach_wline(map, x0, y0, down, turn, s, e);
    lemma_reach_uline(map, x0, y0, down, e, turn, last + 1);
    assert forall|x: int, y: int| #[trigger] in_room(b, x, y) implies reachable(map, x0, y0, x, y) by {
        lemma_reach_room(map, x0, y0, b, cx(down, last + 1, e), cy(down, last + 1, e), x, y);
    }
    assert forall|p: Point| #[trigger] corridor_between(a, b, down).contains(p) implies reachable(map, x0, y0, p.x as int, p.y as int) by {
        lemma_corridor_cell(a, b, down, p);
        let (u, w) = choose|u: int, w: int|
            {
                &&& first <= u <= last
                &&& (u < turn && w == s) || (u == turn && (s <= w <= e || e <= w <= s)) || (u > turn && w == e)
                &&& #[trigger] along(down, u, w) == p
            };
        lemma_on_corridor(a, b, down, u, w);
        if u < turn {
            lemma_reach_uline(map, x0, y0, down, s, first - 1, u);
        } else if u == turn {
            lemma_reach_wline(map, x0, y0, down, turn, s, w);
        } else {
            lemma_reach_uline(map, x0, y0, down, e, turn, u);
        }
    }
}

/// From a reached cell of room `b`, every cell of room `a` is reached.
pub proof fn lemma_corridor_backward(map: GameMap, x0: int, y0: int, a: Room, b: Room, down: bool, sx: int, sy: int)
    requires
        corridor_fits(a, b, down),
        corridor_open(map, a, b, down),
        in_room(b, sx, sy),
        reachable(map, x0, y0, sx, sy),
    ensures
        forall|x: int, y: int| #[trigger] in_room(a, x, y) ==> reachable(map, x0, y0, x, y),
{
    let first = c_first(a, down);
    let last = c_last(b, down);
    let turn = (first + last) / 2;
    let s = c_mid(a, down);
    let e = c_mid(b, down);
    lemma_corridor_lines_open(map, a, b, down);
    lemma_reach_room(map, x0, y0, b, sx, sy, cx(down, last + 1, e), cy(down, last + 1, e));
    lemma_reach_uline(map, x0, y0, down, e, last + 1, turn);
    lemma_reach_wline(map, x0, y0, down, turn, e, s);
    lemma_reach_uline(map, x0, y0, down, s, turn, first - 1);
    assert forall|x: int, y: int| #[trigger] in_room(a, x, y) implies reachable(map, x0, y0, x, y) by {
        lemma_reach_room(map, x0, y0, a, cx(down, first - 1, s), cy(down, first - 1, s), x, y);
    }
}

/// The cells of a corridor lie in the map.
proof fn lemma_corridor_in_map(a: Room, b: Room, down: bool, p: Point)
    requires
        corridor_fits(a, b, down),
        corridor_between(a, b, down).contains(p),
    ensures
        p.x < MAP_WIDTH,
        p.y < MAP_HEIGHT,
{
    lemma_corridor_cell(a, b, down, p);
    let first = c_first(a, down);
    let last = c_last(b, down);
    let turn = (first + last) / 2;
    let s = c_mid(a, down);
    let e = c_mid(b, down);
    let (u, w) = choose|u: int, w: int|
        {
            &&& first <= u <= last
            &&& (u < turn && w == s) || (u == turn && (s <= w <= e || e <= w <= s)) || (u > turn && w == e)
            &&& #[trigger] along(down, u, w) == p
        };
    lemma_on_corridor(a, b, down, u, w);
}

/// The rooms that the corridor `a` runs between, in the order in which it is drawn, and
/// whether it goes down.
pub open spec fn aisle_ends(areas: Seq<Area>, a: Aisle) -> (Room, Room, bool) {
    let rf = areas[a.from as int].room;
    let rt = areas[a.to as int].room;
    match a.link_type {
        LinkType::Right => (rf, rt, false),
        LinkType::Left => (rt, rf, false),
        LinkType::Down => (rf, rt, true),
        LinkType::Up => (rt, rf, true),
    }
}

/// A corridor between linked areas runs from one room to the other.
proof fn lemma_aisle_fits(areas: Seq<Area>, a: Aisle)
    requires
        areas_ok(areas),
        links_wf(areas),
        forall|i: int| 0 <= i < areas.len() ==> room_ok(#[trigger] areas[i]),
        linked(areas, a),
    ensures
        ({
            let (ra, rb, down) = aisle_ends(areas, a);
            &&& corridor_fits(ra, rb, down)
            &&& aisle_points(areas[a.from as int].room, areas[a.to as int].room, a.link_type) == corridor_between(ra, rb, down)
        }),
{
    let f = a.from as int;
    let t = a.to as int;
    assert(lists(areas, f, a.link_type, a.to));
    assert(touching(areas[f], areas[t], a.link_type));
    assert(area_ok(areas[f], areas.len() as int) && room_ok(areas[f]));
    assert(area_ok(areas[t], areas.len() as int) && room_ok(areas[t]));
}

/// The cells of a list of corridors are those of its corridors.
proof fn lemma_aisle_cells(areas: Seq<Area>, aisles: Seq<Aisle>, p: Point)
    ensures
        aisle_cells(areas, aisles).contains(p) <==> exists|k: int|
            0 <= k < aisles.len() && #[trigger] aisle_points(
                areas[aisles[k].from as int].room,
                areas[aisles[k].to as int].room,
                aisles[k].link_type,
            ).contains(p),
    decreases aisles.len(),
{
    if aisles.len() > 0 {
        let d = aisles.drop_last();
        let l = aisles.last();
        lemma_aisle_cells(areas, d, p);
        let c0 = aisle_cells(areas, d);
        let pts = aisle_points(areas[l.from as int].room, areas[l.to as int].room, l.link_type);
        let c = c0 + pts;
        assert(aisle_cells(areas, aisles) == c);
        if c.contains(p) {
            let j = choose|j: int| 0 <= j < c.len() && c[j] == p;
            if j < c0.len() {
                assert(c0[j] == p);
                assert(c0.contains(p));
                let k = choose|k: int|
                    0 <= k < d.len() && #[trigger] aisle_points(areas[d[k].from as int].room, areas[d[k].to as int].room, d[k].link_type).contains(p);
                assert(d[k] == aisles[k]);
            } else {
                assert(pts[j - c0.len()] == p);
                assert(pts.contains(p));
                assert(aisles[aisles.len() - 1] == l);
            }
        }
        if exists|k: int|
            0 <= k < aisles.len() && #[trigger] aisle_points(areas[aisles[k].from as int].room, areas[aisles[k].to as int].room, aisles[k].link_type).contains(p) {
            let k = choose|k: int|
                0 <= k < aisles.len() && #[trigger] aisle_points(areas[aisles[k].from as int].room, areas[aisles[k].to as int].room, aisles[k].link_type).contains(p);
            if k < d.len() {
                assert(d[k] == aisles[k]);
                assert(c0.contains(p));
                let j = choose|j: int| 0 <= j < c0.len() && c0[j] == p;
                assert(c[j] == p);
            } else {
                assert(aisles[k] == l);
                let j = choose|j: int| 0 <= j < pts.len() && pts[j] == p;
                assert(c[c0.len() + j] == p);
            }
        }
    }
}

/// What a laid-out floor lets one walk on: the exit, the corridor cells and the rooms, and
/// nothing else.
proof fn lemma_layout_open(map: GameMap, areas: Seq<Area>, cells: Seq<Point>)
    requires
        map.width == MAP_WIDTH,
        map.height == MAP_HEIGHT,
        dungeon_layout(map, areas, cells),
    ensures
        open_cell(map, map.exit_pos.x as int, map.exit_pos.y as int),
        forall|i: int, x: int, y: int|
            0 <= i < areas.len() && #[trigger] in_room(areas[i].room, x, y) ==> open_cell(map, x, y),
        forall|x: int, y: int| map.in_bounds(x, y) && #[trigger] on_aisle(cells, x, y) ==> open_cell(map, x, y),
        forall|x: int, y: int|
            #[trigger] open_cell(map, x, y) ==> is_exit_cell(map, x, y) || on_aisle(cells, x, y) || exists|i: int|
                0 <= i < areas.len() && #[trigger] in_room(areas[i].room, x, y),
{
    let ex = map.exit_pos.x as int;
    let ey = map.exit_pos.y as int;
    assert(map.terrain(ex, ey) == Terrain::Exit);
    assert forall|i: int, x: int, y: int|
        0 <= i < areas.len() && #[trigger] in_room(areas[i].room, x, y) implies open_cell(map, x, y) by {
        assert(area_ok(areas[i], areas.len() as int) && room_ok(areas[i]));
        if is_exit_cell(map, x, y) {
            assert(x == ex && y == ey);
        } else if on_aisle(cells, x, y) {
        } else {
        }
    }
    assert forall|x: int, y: int| map.in_bounds(x, y) && #[trigger] on_aisle(cells, x, y) implies open_cell(map, x, y) by {
        if is_exit_cell(map, x, y) {
            assert(x == ex && y == ey);
        }
    }
    assert forall|x: int, y: int|
        #[trigger] open_cell(map, x, y) implies is_exit_cell(map, x, y) || on_aisle(cells, x, y) || exists|i: int|
            0 <= i < areas.len() && #[trigger] in_room(areas[i].room, x, y) by {
        if !is_exit_cell(map, x, y) && !on_aisle(cells, x, y) && !exists|i: int|
            0 <= i < areas.len() && #[trigger] in_room(areas[i].room, x, y) {
            assert(map.terrain(x, y) == Terrain::Wall);
        }
    }
}

/// Every cell of room `r` can be reached from `(x0, y0)`.
pub open spec fn room_reached(map: GameMap, x0: int, y0: int, r: Room) -> bool {
    forall|x: int, y: int| #[trigger] in_room(r, x, y) ==> reachable(map, x0, y0, x, y)
}

/// The corridors of the list that a floor draws.
pub open spec fn drawn_aisles(areas: Seq<Area>, cells: Seq<Point>, aisles: Seq<Aisle>) -> bool {
    &&& forall|k: int| 0 <= k < aisles.len() ==> #[trigger] linked(areas, aisles[k])
    &&& cells == aisle_cells(areas, aisles)
}

/// Each drawn corridor runs between its rooms over open cells.
proof fn lemma_aisle_open(map: GameMap, areas: Seq<Area>, cells: Seq<Point>, aisles: Seq<Aisle>, k: int)
    requires
        map.width == MAP_WIDTH,
        map.height == MAP_HEIGHT,
        dungeon_layout(map, areas, cells),
        drawn_aisles(areas, cells, aisles),
        0 <= k < aisles.len(),
    ensures
        ({
            let (ra, rb, down) = aisle_ends(areas, aisles[k]);
            corridor_fits(ra, rb, down) && corridor_open(map, ra, rb, down)
        }),
{
    let a = aisles[k];
    let (ra, rb, down) = aisle_ends(areas, a);
    assert(linked(areas, a));
    lemma_aisle_fits(areas, a);
    lemma_layout_open(map, areas, cells);
    let f = a.from as int;
    let t = a.to as int;
    assert forall|x: int, y: int| #[trigger] in_room(ra, x, y) implies open_cell(map, x, y) by {
        if ra == areas[f].room {
            assert(in_room(areas[f].room, x, y));
        } else {
            assert(in_room(areas[t].room, x, y));
        }
    }
    assert forall|x: int, y: int| #[trigger] in_room(rb, x, y) implies open_cell(map, x, y) by {
        if rb == areas[f].room {
            assert(in_room(areas[f].room, x, y));
        } else {
            assert(in_room(areas[t].room, x, y));
        }
    }
    assert forall|p: Point| #[trigger] corridor_between(ra, rb, down).contains(p) implies open_cell(
        map,
        p.x as int,
        p.y as int,
    ) by {
        lemma_corridor_in_map(ra, rb, down, p);
        assert(aisle_points(areas[f].room, areas[t].room, a.link_type).contains(p));
        lemma_aisle_cells(areas, aisles, p);
        let j = choose|j: int| 0 <= j < cells.len() && cells[j] == p;
        assert(at_cell(cells[j], p.x as int, p.y as int));
        assert(on_aisle(cells, p.x as int, p.y as int));
    }
}

/// A corridor carries reachability from the room at one of its ends to the room at the other.
proof fn lemma_join(
    map: GameMap,
    x0: int,
    y0: int,
    areas: Seq<Area>,
    cells: Seq<Point>,
    aisles: Seq<Aisle>,
    k: int,
    u: usize,
    v: usize,
)
    requires
        map.width == MAP_WIDTH,
        map.height == MAP_HEIGHT,
        dungeon_layout(map, areas, cells),
        drawn_aisles(areas, cells, aisles),
        0 <= k < aisles.len(),
        joins(aisles[k], u, v),
        room_reached(map, x0, y0, areas[u as int].room),
    ensures
        room_reached(map, x0, y0, areas[v as int].room),
{
    let a = aisles[k];
    let (ra, rb, down) = aisle_ends(areas, a);
    lemma_aisle_open(map, areas, cells, aisles, k);
    let ru = areas[u as int].room;
    let rv = areas[v as int].room;
    if u == v {
    } else if ru == ra && rv == rb {
        assert(in_room(ra, ra.x as int, ra.y as int));
        lemma_corridor_forward(map, x0, y0, ra, rb, down, ra.x as int, ra.y as int);
    } else {
        assert(ru == rb && rv == ra);
        assert(in_room(rb, rb.x as int, rb.y as int));
        lemma_corridor_backward(map, x0, y0, ra, rb, down, rb.x as int, rb.y as int);
    }
}

/// Going back along a path of corridors from a reached room.
proof fn lemma_path_back(
    map: GameMap,
    x0: int,
    y0: int,
    areas: Seq<Area>,
    cells: Seq<Point>,
    aisles: Seq<Aisle>,
    path: Seq<usize>,
    k: int,
)
    requires
        map.width == MAP_WIDTH,
        map.height == MAP_HEIGHT,
        dungeon_layout(map, areas, cells),
        drawn_aisles(areas, cells, aisles),
        aisle_path(aisles, path),
        0 <= k < path.len(),
        room_reached(map, x0, y0, areas[path.last() as int].room),
    ensures
        room_reached(map, x0, y0, areas[path[k] as int].room),
    decreases path.len() - k,
{
    if k < path.len() - 1 {
        lemma_path_back(map, x0, y0, areas, cells, aisles, path, k + 1);
        assert(aisle_step(aisles, path, k));
        let q = choose|q: int| 0 <= q < aisles.len() && #[trigger] joins(aisles[q], path[k], path[k + 1]);
        lemma_join(map, x0, y0, areas, cells, aisles, q, path[k + 1], path[k]);
    }
}

/// Going forward along a path of corridors from a reached room.
proof fn lemma_path_fwd(
    map: GameMap,
    x0: int,
    y0: int,
    areas: Seq<Area>,
    cells: Seq<Point>,
    aisles: Seq<Aisle>,
    path: Seq<usize>,
    k: int,
)
    requires
        map.width == MAP_WIDTH,
        map.height == MAP_HEIGHT,
        dungeon_layout(map, areas, cells),
        drawn_aisles(areas, cells, aisles),
        aisle_path(aisles, path),
        0 <= k < path.len(),
        room_reached(map, x0, y0, areas[path[0] as int].room),
    ensures
        room_reached(map, x0, y0, areas[path[k] as int].room),
    decreases k,
{
    if k > 0 {
        lemma_path_fwd(map, x0, y0, areas, cells, aisles, path, k - 1);
        assert(aisle_step(aisles, path, k - 1));
        let q = choose|q: int| 0 <= q < aisles.len() && #[trigger] joins(aisles[q], path[k - 1], path[k - 1 + 1]);
        lemma_join(map, x0, y0, areas, cells, aisles, q, path[k - 1], path[k]);
    }
}

/// Every cell of the map that can be walked on can be reached from the exit.
pub open spec fn floor_connected(map: GameMap) -> bool {
    forall|x: int, y: int|
        #[trigger] open_cell(map, x, y) ==> reachable(map, map.exit_pos.x as int, map.exit_pos.y as int, x, y)
}

/// On a laid-out floor, every cell that can be walked on can be reached from the exit.
pub proof fn lemma_floor_connected(map: GameMap, areas: Seq<Area>, cells: Seq<Point>)
    requires
        map.width == MAP_WIDTH,
        map.height == MAP_HEIGHT,
        dungeon_layout(map, areas, cells),
    ensures
        floor_connected(map),
{
    let ex = map.exit_pos.x as int;
    let ey = map.exit_pos.y as int;
    assert(corridors_of(areas, cells));
    let aisles = choose|aisles: Seq<Aisle>|
        {
            &&& forall|k: int| 0 <= k < aisles.len() ==> #[trigger] linked(areas, aisles[k])
            &&& cells == aisle_cells(areas, aisles)
            &&& forall|i: int| 0 <= i < areas.len() ==> #[trigger] aisle_reach(aisles, i)
            &&& areas.len() - 1 <= aisles.len() <= areas.len() + 4
        };
    assert(drawn_aisles(areas, cells, aisles));
    lemma_layout_open(map, areas, cells);
    lemma_reach_start(map, ex, ey);
    let ri = choose|i: int| 0 <= i < areas.len() && #[trigger] in_room(areas[i].room, ex, ey);
    assert(room_reached(map, ex, ey, areas[ri].room)) by {
        assert forall|x: int, y: int| #[trigger] in_room(areas[ri].room, x, y) implies reachable(map, ex, ey, x, y) by {
            lemma_reach_room(map, ex, ey, areas[ri].room, ex, ey, x, y);
        }
    }
    // back to area 0 along the corridors that reach the exit's room
    assert(aisle_reach(aisles, ri));
    let p0 = choose|path: Seq<usize>| #[trigger] aisle_path(aisles, path) && path.last() == ri;
    lemma_path_back(map, ex, ey, areas, cells, aisles, p0, 0);
    // then out to every area
    assert forall|i: int| 0 <= i < areas.len() implies #[trigger] room_reached(map, ex, ey, areas[i].room) by {
        assert(aisle_reach(aisles, i));
        let p = choose|path: Seq<usize>| #[trigger] aisle_path(aisles, path) && path.last() == i;
        lemma_path_fwd(map, ex, ey, areas, cells, aisles, p, p.len() - 1);
    }
    assert forall|x: int, y: int| #[trigger] open_cell(map, x, y) implies reachable(map, ex, ey, x, y) by {
        if is_exit_cell(map, x, y) {
        } else if on_aisle(cells, x, y) {
            let j = choose|j: int| 0 <= j < cells.len() && #[trigger] at_cell(cells[j], x, y);
            let p = cells[j];
            assert(cells.contains(p));
            lemma_aisle_cells(areas, aisles, p);
            let k = choose|k: int|
                0 <= k < aisles.len() && #[trigger] aisle_points(
                    areas[aisles[k].from as int].room,
                    areas[aisles[k].to as int].room,
                    aisles[k].link_type,
                ).contains(p);
            let a = aisles[k];
            let (ra, rb, down) = aisle_ends(areas, a);
            lemma_aisle_open(map, areas, cells, aisles, k);
            lemma_aisle_fits(areas, a);
            assert(linked(areas, a));
            assert(room_reached(map, ex, ey, areas[a.from as int].room));
            assert(room_reached(map, ex, ey, areas[a.to as int].room));
            assert(in_room(ra, ra.x as int, ra.y as int));
            lemma_corridor_forward(map, ex, ey, ra, rb, down, ra.x as int, ra.y as int);
            assert(corridor_between(ra, rb, down).contains(p));
        } else {
            let i = choose|i: int| 0 <= i < areas.len() && #[trigger] in_room(areas[i].room, x, y);
            assert(room_reached(map, ex, ey, areas[i].room));
        }
    }
}

} // verus!
