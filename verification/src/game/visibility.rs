use vstd::prelude::*;

use super::types::{abs_int, Position};
use crate::map::cell::{GameMap, Terrain};

verus! {

/// Whether `p` lies in the 3x3 square centred on `c`.
pub open spec fn in_square(c: Position, p: Position) -> bool {
    abs_int(p.x - c.x) <= 1 && abs_int(p.y - c.y) <= 1
}

/// Whether `a` and `b` are distinct and touch, diagonals included.
pub open spec fn is_neighbour(a: Position, b: Position) -> bool {
    in_square(a, b) && a != b
}

/// Whether `p` is a corridor or exit cell next to a cell of the room that `player` stands in.
pub open spec fn is_room_entrance(map: GameMap, player: Position, p: Position) -> bool {
    &&& (map.terrain_at(p) == Some(Terrain::Aisle) || map.terrain_at(p) == Some(Terrain::Exit))
    &&& exists|r: Position| #[trigger] map.spec_same_room(player, r) && is_neighbour(r, p)
}

/// The cells seen from `player`: the whole walkable floor under full-map vision; else, in a
/// room, the room and the corridor or exit cells that touch it; else the 3x3 square around
/// the player.
pub open spec fn spec_sees(full_map: bool, map: GameMap, player: Position, p: Position) -> bool {
    if full_map {
        map.spec_is_walkable(p) || map.spec_is_exit(p)
    } else if map.spec_is_room(player) {
        map.spec_same_room(player, p) || is_room_entrance(map, player, p)
    } else {
        in_square(player, p)
    }
}

/// Whether a position comes before `(x, y)` in row-major order.
pub open spec fn before_xy(p: Position, x: int, y: int) -> bool {
    p.y < y || (p.y == y && p.x < x)
}

pub struct Visibility {
    pub visible: Vec<Position>,
    pub visited: Vec<Position>,
    pub full_map: bool,
}

/// Adds `p` to `v` unless it is already there.
pub fn insert_unique(v: &mut Vec<Position>, p: Position)
    ensures
        forall|q: Position| #[trigger] final(v)@.contains(q) <==> (old(v)@.contains(q) || q == p),
        old(v)@.no_duplicates() ==> final(v)@.no_duplicates(),
{
    let mut i: usize = 0;
    while i < v.len()
        invariant
            i <= v@.len(),
            forall|j: int| 0 <= j < i ==> v@[j] != p,
        decreases v@.len() - i,
    {
        if v[i] == p {
            proof {
                assert forall|q: Position| #[trigger] v@.contains(q) <==> (v@.contains(q) || q == p) by {
                    if q == p {
                        assert(v@[i as int] == q);
                    }
                }
            }
            return;
        }
        i = i + 1;
    }
    let ghost old_v = v@;
    v.push(p);
    proof {
        assert forall|q: Position| #[trigger] v@.contains(q) <==> (old_v.contains(q) || q == p) by {
            if q == p {
                assert(v@[old_v.len() as int] == q);
            }
            if old_v.contains(q) {
                let k = choose|k: int| 0 <= k < old_v.len() && old_v[k] == q;
                assert(v@[k] == q);
            }
            if v@.contains(q) && q != p {
                let k = choose|k: int| 0 <= k < v@.len() && v@[k] == q;
                assert(k < old_v.len());
                assert(old_v[k] == q);
            }
        }
        if old_v.no_duplicates() {
            assert forall|a: int, b: int| 0 <= a < b < v@.len() implies v@[a] != v@[b] by {
                if b == old_v.len() {
                    assert(v@[a] == old_v[a]);
                }
            }
        }
    }
}

/// Whether a cell of the player's room touches `p` (checked at the eight neighbours).
fn touches_room(map: &GameMap, player: &Position, p: &Position) -> (b: bool)
    requires
        map.wf(),
        map.width <= i32::MAX,
        map.height <= i32::MAX,
        map.in_bounds(p.x as int, p.y as int),
    ensures
        b == exists|r: Position| #[trigger] map.spec_same_room(*player, r) && is_neighbour(r, *p),
{
    let mut dy: i32 = -1;
    while dy <= 1
        invariant
            map.wf(),
            map.width <= i32::MAX,
            map.height <= i32::MAX,
            map.in_bounds(p.x as int, p.y as int),
            -1 <= dy <= 2,
            forall|r: Position|
                #![trigger map.spec_same_room(*player, r)]
                r.y - p.y < dy && map.spec_same_room(*player, r) ==> !is_neighbour(r, *p),
        decreases 2 - dy,
    {
        let mut dx: i32 = -1;
        while dx <= 1
            invariant
                map.wf(),
                map.width <= i32::MAX,
                map.height <= i32::MAX,
                map.in_bounds(p.x as int, p.y as int),
                -1 <= dy <= 1,
                -1 <= dx <= 2,
                forall|r: Position|
                    #![trigger map.spec_same_room(*player, r)]
                    (r.y - p.y < dy || (r.y - p.y == dy && r.x - p.x < dx)) && map.spec_same_room(
                        *player,
                        r,
                    ) ==> !is_neighbour(r, *p),
            decreases 2 - dx,
        {
            if dx != 0 || dy != 0 {
                let r = Position::new(p.x + dx, p.y + dy);
                if map.is_same_room(player, &r) {
                    proof {
                        assert(map.spec_same_room(*player, r) && is_neighbour(r, *p));
                    }
                    return true;
                }
            }
            dx = dx + 1;
        }
        dy = dy + 1;
    }
    false
}

impl Visibility {
    /// Neither list holds a cell twice: each stands for a set of cells.
    pub open spec fn wf(&self) -> bool {
        &&& self.visible@.no_duplicates()
        &&& self.visited@.no_duplicates()
    }

    pub fn new() -> (v: Self)
        ensures
            v.wf(),
            v.visible@.len() == 0,
            v.visited@.len() == 0,
            !v.full_map,
    {
        Visibility { visible: Vec::new(), visited: Vec::new(), full_map: false }
    }

    pub fn update(&mut self, player_pos: &Position, map: &GameMap)
        requires
            map.wf(),
            map.width < i32::MAX,
            map.height < i32::MAX,
            i32::MIN < player_pos.x < i32::MAX,
            i32::MIN < player_pos.y < i32::MAX,
        ensures
            final(self).full_map == old(self).full_map,
            forall|p: Position| #[trigger] final(self).visible@.contains(p) <==> spec_sees(
                old(self).full_map,
                *map,
                *player_pos,
                p,
            ),
            forall|p: Position| #[trigger] final(self).visited@.contains(p) <==> (old(
                self,
            ).visited@.contains(p) || final(self).visible@.contains(p)),
            final(self).visible@.no_duplicates(),
            old(self).visited@.no_duplicates() ==> final(self).visited@.no_duplicates(),
            old(self).wf() ==> final(self).wf(),
    {
        self.visible.clear();
        let in_room = match map.get(player_pos) {
            Some(c) => c.is_room(),
            None => false,
        };
        if self.full_map {
            self.reveal_all(map);
        } else if in_room {
            self.reveal_room(player_pos, map);
        } else {
            self.reveal_adjacent(player_pos);
        }
        let ghost vis = self.visible@;
        assert(forall|p: Position| #[trigger] vis.contains(p) <==> spec_sees(
            old(self).full_map,
            *map,
            *player_pos,
            p,
        ));
        let n = self.visible.len();
        let mut i: usize = 0;
        while i < n
            invariant
                self.visible@ == vis,
                vis.no_duplicates(),
                self.full_map == old(self).full_map,
                forall|p: Position| #[trigger] vis.contains(p) <==> spec_sees(
                    old(self).full_map,
                    *map,
                    *player_pos,
                    p,
                ),
                n == self.visible@.len(),
                i <= n,
                forall|p: Position| #[trigger] self.visited@.contains(p) <==> (old(
                    self,
                ).visited@.contains(p) || self.visible@.subrange(0, i as int).contains(p)),
                old(self).visited@.no_duplicates() ==> self.visited@.no_duplicates(),
            decreases n - i,
        {
            let p = self.visible[i];
            insert_unique(&mut self.visited, p);
            proof {
                assert forall|q: Position| #[trigger] self.visited@.contains(q) <==> (old(
                    self,
                ).visited@.contains(q) || self.visible@.subrange(0, i + 1).contains(q)) by {
                    let s0 = self.visible@.subrange(0, i as int);
                    let s1 = self.visible@.subrange(0, i + 1);
                    if s0.contains(q) {
                        let k = choose|k: int| 0 <= k < s0.len() && s0[k] == q;
                        assert(s1[k] == q);
                    }
                    if q == p {
                        assert(s1[i as int] == q);
                    }
                    if s1.contains(q) {
                        let k = choose|k: int| 0 <= k < s1.len() && s1[k] == q;
                        if k < i {
                            assert(s0[k] == q);
                        }
                    }
                }
            }
            i = i + 1;
        }
        proof {
            assert(self.visible@.subrange(0, n as int) =~= self.visible@);
        }
    }

    fn reveal_all(&mut self, map: &GameMap)
        requires
            map.wf(),
            map.width < i32::MAX,
            map.height < i32::MAX,
            old(self).visible@.len() == 0,
        ensures
            final(self).full_map == old(self).full_map,
            final(self).visited == old(self).visited,
            final(self).visible@.no_duplicates(),
            forall|p: Position| #[trigger] final(self).visible@.contains(p) <==> (
            map.spec_is_walkable(p) || map.spec_is_exit(p)),
    {
        let mut y: usize = 0;
        while y < map.height
            invariant
                map.wf(),
                map.width < i32::MAX,
                map.height < i32::MAX,
                y <= map.height,
                self.full_map == old(self).full_map,
                self.visited == old(self).visited,
                self.visible@.no_duplicates(),
                forall|p: Position| #[trigger] self.visible@.contains(p) <==> (before_xy(
                    p,
                    0,
                    y as int,
                ) && (map.spec_is_walkable(p) || map.spec_is_exit(p))),
            decreases map.height - y,
        {
            let mut x: usize = 0;
            while x < map.width
                invariant
                    map.wf(),
                    map.width < i32::MAX,
                    map.height < i32::MAX,
                    y < map.height,
                    x <= map.width,
                    self.full_map == old(self).full_map,
                    self.visited == old(self).visited,
                    self.visible@.no_duplicates(),
                self.visible@.no_duplicates(),
                    forall|p: Position| #[trigger] self.visible@.contains(p) <==> (before_xy(
                        p,
                        x as int,
                        y as int,
                    ) && (map.spec_is_walkable(p) || map.spec_is_exit(p))),
                decreases map.width - x,
            {
                let pos = Position::new(x as i32, y as i32);
                if map.is_walkable(&pos) || map.is_exit(&pos) {
                    let ghost old_v = self.visible@;
                    self.visible.push(pos);
                    proof {
                        lemma_push_contains(old_v, pos);
                    }
                }
                x = x + 1;
            }
            y = y + 1;
        }
    }

    fn reveal_room(&mut self, player_pos: &Position, map: &GameMap)
        requires
            map.wf(),
            map.width < i32::MAX,
            map.height < i32::MAX,
            old(self).visible@.len() == 0,
        ensures
            final(self).full_map == old(self).full_map,
            final(self).visited == old(self).visited,
            final(self).visible@.no_duplicates(),
            forall|p: Position| #[trigger] final(self).visible@.contains(p) <==> (
            map.spec_same_room(*player_pos, p) || is_room_entrance(*map, *player_pos, p)),
    {
        let mut y: usize = 0;
        while y < map.height
            invariant
                map.wf(),
                map.width < i32::MAX,
                map.height < i32::MAX,
                y <= map.height,
                self.full_map == old(self).full_map,
                self.visited == old(self).visited,
                self.visible@.no_duplicates(),
                forall|p: Position| #[trigger] self.visible@.contains(p) <==> (before_xy(
                    p,
                    0,
                    y as int,
                ) && (map.spec_same_room(*player_pos, p) || is_room_entrance(
                    *map,
                    *player_pos,
                    p,
                ))),
            decreases map.height - y,
        {
            let mut x: usize = 0;
            while x < map.width
                invariant
                    map.wf(),
                    map.width < i32::MAX,
                    map.height < i32::MAX,
                    y < map.height,
                    x <= map.width,
                    self.full_map == old(self).full_map,
                    self.visited == old(self).visited,
                    self.visible@.no_duplicates(),
                self.visible@.no_duplicates(),
                    forall|p: Position| #[trigger] self.visible@.contains(p) <==> (before_xy(
                        p,
                        x as int,
                        y as int,
                    ) && (map.spec_same_room(*player_pos, p) || is_room_entrance(
                        *map,
                        *player_pos,
                        p,
                    ))),
                decreases map.width - x,
            {
                let pos = Position::new(x as i32, y as i32);
                let mut show = map.is_same_room(player_pos, &pos);
                if !show {
                    let t = map.get(&pos).unwrap().terrain;
                    if t == Terrain::Aisle || t == Terrain::Exit {
                        show = touches_room(map, player_pos, &pos);
                    }
                }
                proof {
                    assert(show == (map.spec_same_room(*player_pos, pos) || is_room_entrance(
                        *map,
                        *player_pos,
                        pos,
                    )));
                }
                if show {
                    let ghost old_v = self.visible@;
                    self.visible.push(pos);
                    proof {
                        lemma_push_contains(old_v, pos);
                    }
                }
                x = x + 1;
            }
            y = y + 1;
        }
        proof {
            assert forall|p: Position| #[trigger] self.visible@.contains(p) <==> (
            map.spec_same_room(*player_pos, p) || is_room_entrance(*map, *player_pos, p)) by {
                if map.spec_same_room(*player_pos, p) || is_room_entrance(*map, *player_pos, p) {
                    assert(map.in_bounds(p.x as int, p.y as int));
                    assert(before_xy(p, 0, map.height as int));
                }
            }
        }
    }

    fn reveal_adjacent(&mut self, center: &Position)
        requires
            i32::MIN < center.x < i32::MAX,
            i32::MIN < center.y < i32::MAX,
            old(self).visible@.len() == 0,
        ensures
            final(self).full_map == old(self).full_map,
            final(self).visited == old(self).visited,
            final(self).visible@.no_duplicates(),
            forall|p: Position| #[trigger] final(self).visible@.contains(p) <==> in_square(
                *center,
                p,
            ),
    {
        let mut dy: i32 = -1;
        while dy <= 1
            invariant
                i32::MIN < center.x < i32::MAX,
                i32::MIN < center.y < i32::MAX,
                -1 <= dy <= 2,
                self.full_map == old(self).full_map,
                self.visited == old(self).visited,
                self.visible@.no_duplicates(),
                forall|p: Position| #[trigger] self.visible@.contains(p) <==> (in_square(*center, p)
                    && p.y - center.y < dy),
            decreases 2 - dy,
        {
            let mut dx: i32 = -1;
            while dx <= 1
                invariant
                    i32::MIN < center.x < i32::MAX,
                    i32::MIN < center.y < i32::MAX,
                    -1 <= dy <= 1,
                    -1 <= dx <= 2,
                    self.full_map == old(self).full_map,
                    self.visited == old(self).visited,
                    self.visible@.no_duplicates(),
                self.visible@.no_duplicates(),
                    forall|p: Position| #[trigger] self.visible@.contains(p) <==> (in_square(
                        *center,
                        p,
                    ) && (p.y - center.y < dy || (p.y - center.y == dy && p.x - center.x < dx))),
                decreases 2 - dx,
            {
                let ghost old_v = self.visible@;
                let q = center.plus(&Position::new(dx, dy));
                self.visible.push(q);
                proof {
                    lemma_push_contains(old_v, q);
                }
                dx = dx + 1;
            }
            dy = dy + 1;
        }
    }

    pub fn is_visible(&self, pos: &Position) -> (b: bool)
        ensures
            b == self.visible@.contains(*pos),
    {
        contains_pos(&self.visible, pos)
    }

    pub fn is_visited(&self, pos: &Position) -> (b: bool)
        ensures
            b == self.visited@.contains(*pos),
    {
        contains_pos(&self.visited, pos)
    }

    pub fn reset_for_new_floor(&mut self)
        ensures
            final(self).wf(),
            final(self).visible@.len() == 0,
            final(self).visited@.len() == 0,
            !final(self).full_map,
    {
        self.visible.clear();
        self.visited.clear();
        self.full_map = false;
    }
}

/// Whether `v` holds `p`.
pub fn contains_pos(v: &Vec<Position>, p: &Position) -> (b: bool)
    ensures
        b == v@.contains(*p),
{
    let mut i: usize = 0;
    while i < v.len()
        invariant
            i <= v@.len(),
            forall|j: int| 0 <= j < i ==> v@[j] != *p,
        decreases v@.len() - i,
    {
        if v[i] == *p {
            proof {
                assert(v@[i as int] == *p);
            }
            return true;
        }
        i = i + 1;
    }
    false
}

proof fn lemma_push_contains(s: Seq<Position>, p: Position)
    ensures
        forall|q: Position| #[trigger] s.push(p).contains(q) <==> (s.contains(q) || q == p),
        s.no_duplicates() && !s.contains(p) ==> s.push(p).no_duplicates(),
{
    if s.no_duplicates() && !s.contains(p) {
        let t = s.push(p);
        assert forall|a: int, b: int| 0 <= a < b < t.len() implies t[a] != t[b] by {
            if b == s.len() {
                assert(t[a] == s[a]);
            }
        }
    }
    assert forall|q: Position| #[trigger] s.push(p).contains(q) <==> (s.contains(q) || q == p) by {
        let t = s.push(p);
        if q == p {
            assert(t[s.len() as int] == q);
        }
        if s.contains(q) {
            let k = choose|k: int| 0 <= k < s.len() && s[k] == q;
            assert(t[k] == q);
        }
        if t.contains(q) && q != p {
            let k = choose|k: int| 0 <= k < t.len() && t[k] == q;
            assert(k < s.len());
            assert(s[k] == q);
        }
    }
}

} // verus!
