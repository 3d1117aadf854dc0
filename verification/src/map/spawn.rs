use vstd::prelude::*;

use super::cell::GameMap;
use crate::game::types::Position;
use crate::game::visibility::{before_xy, contains_pos};
use crate::rng::random_below;

verus! {

/// A cell where an entity may be placed: a room cell that is not the exit and not taken.
pub open spec fn spawn_candidate(map: GameMap, occupied: Seq<Position>, q: Position) -> bool {
    map.spec_is_room(q) && !map.spec_is_exit(q) && !occupied.contains(q)
}

/// A random free room cell, or the origin when there is none.
pub fn calc_spawn_pos(map: &GameMap, occupied: &Vec<Position>) -> (p: Position)
    requires
        map.wf(),
        map.width <= i32::MAX,
        map.height <= i32::MAX,
    ensures
        (exists|q: Position| #[trigger] spawn_candidate(*map, occupied@, q)) ==> spawn_candidate(*map, occupied@, p),
        !(exists|q: Position| #[trigger] spawn_candidate(*map, occupied@, q)) ==> p == (Position { x: 0, y: 0 }),
{
    let mut candidates: Vec<Position> = Vec::new();
    let mut y: usize = 0;
    while y < map.height
        invariant
            map.wf(),
            map.width <= i32::MAX,
            map.height <= i32::MAX,
            y <= map.height,
            forall|j: int| 0 <= j < candidates@.len() ==> spawn_candidate(*map, occupied@, #[trigger] candidates@[j]),
            forall|q: Position| #[trigger] spawn_candidate(*map, occupied@, q) && before_xy(q, 0, y as int) ==> candidates@.contains(q),
        decreases map.height - y,
    {
        let mut x: usize = 0;
        while x < map.width
            invariant
                map.wf(),
                map.width <= i32::MAX,
                map.height <= i32::MAX,
                y < map.height,
                x <= map.width,
                forall|j: int| 0 <= j < candidates@.len() ==> spawn_candidate(*map, occupied@, #[trigger] candidates@[j]),
                forall|q: Position| #[trigger] spawn_candidate(*map, occupied@, q) && before_xy(q, x as int, y as int) ==> candidates@.contains(q),
            decreases map.width - x,
        {
            let pos = Position::new(x as i32, y as i32);
            let is_room = match map.get(&pos) {
                Some(c) => c.is_room(),
                None => false,
            };
            if is_room && !map.is_exit(&pos) && !contains_pos(occupied, &pos) {
                let ghost old_c = candidates@;
                candidates.push(pos);
                proof {
                    assert(candidates@[old_c.len() as int] == pos);
                    assert forall|q: Position| #[trigger] spawn_candidate(*map, occupied@, q) && before_xy(q, x + 1, y as int)
                        implies candidates@.contains(q) by {
                        if q != pos {
                            assert(old_c.contains(q));
                            let k = choose|k: int| 0 <= k < old_c.len() && old_c[k] == q;
                            assert(candidates@[k] == q);
                        }
                    }
                }
            }
            x = x + 1;
        }
        y = y + 1;
    }
    if candidates.len() == 0 {
        proof {
            assert forall|q: Position| !#[trigger] spawn_candidate(*map, occupied@, q) by {
                if spawn_candidate(*map, occupied@, q) {
                    assert(before_xy(q, 0, map.height as int));
                    assert(candidates@.contains(q));
                }
            }
        }
        return Position::zero();
    }
    let k = random_below(candidates.len());
    candidates[k]
}

} // verus!
