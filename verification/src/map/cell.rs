use vstd::prelude::*;

use crate::game::types::Position;

verus! {

/// The ground kind of one map cell.
#[derive(Clone, Copy, Debug, PartialEq, Eq, Structural)]
pub enum Terrain {
    Wall,
    Floor { room_id: u8 },
    Aisle,
    Exit,
}

/// One cell of the map.
#[derive(Clone, Copy, Debug)]
pub struct MapCell {
    pub terrain: Terrain,
}

/// Whether a terrain can be walked on: everything but a wall.
pub open spec fn terrain_walkable(t: Terrain) -> bool {
    t != Terrain::Wall
}

/// Whether a terrain belongs to a room.
pub open spec fn terrain_is_room(t: Terrain) -> bool {
    t is Floor
}

/// The character that draws a terrain.
pub open spec fn terrain_char(t: Terrain) -> char {
    match t {
        Terrain::Wall => ' ',
        Terrain::Floor { .. } => '.',
        Terrain::Aisle => '-',
        Terrain::Exit => '+',
    }
}

impl MapCell {
    pub fn wall() -> (c: MapCell)
        ensures
            c.terrain == Terrain::Wall,
    {
        MapCell { terrain: Terrain::Wall }
    }

    pub fn is_walkable(&self) -> (b: bool)
        ensures
            b == terrain_walkable(self.terrain),
    {
        self.terrain != Terrain::Wall
    }

    pub fn is_room(&self) -> (b: bool)
        ensures
            b == terrain_is_room(self.terrain),
    {
        matches!(self.terrain, Terrain::Floor { .. })
    }
}

/// A rectangular grid of cells, `height` rows of `width` cells each.
pub struct GameMap {
    pub width: usize,
    pub height: usize,
    /// The cells, row by row (`cells[y][x]`).
    pub cells: Vec<Vec<MapCell>>,
    pub exit_pos: Position,
}

impl GameMap {
    /// The terrains of the map, row by row.
    pub open spec fn grid(&self) -> Seq<Seq<Terrain>> {
        self.cells@.map_values(|row: Vec<MapCell>| row@.map_values(|c: MapCell| c.terrain))
    }

    /// The grid holds `height` rows of `width` cells.
    pub open spec fn wf(&self) -> bool {
        &&& self.grid().len() == self.height
        &&& forall|y: int| 0 <= y < self.height ==> #[trigger] self.grid()[y].len() == self.width
    }

    /// Whether integer coordinates lie inside the map.
    pub open spec fn in_bounds(&self, x: int, y: int) -> bool {
        0 <= x < self.width && 0 <= y < self.height
    }

    /// The terrain at integer coordinates (meaningful inside the map).
    pub open spec fn terrain(&self, x: int, y: int) -> Terrain {
        self.grid()[y][x]
    }

    /// The terrain at a position, or `None` outside the map.
    pub open spec fn terrain_at(&self, p: Position) -> Option<Terrain> {
        if self.in_bounds(p.x as int, p.y as int) {
            Some(self.terrain(p.x as int, p.y as int))
        } else {
            None
        }
    }

    pub open spec fn spec_is_walkable(&self, p: Position) -> bool {
        match self.terrain_at(p) {
            Some(t) => terrain_walkable(t),
            None => false,
        }
    }

    pub open spec fn spec_is_wall(&self, p: Position) -> bool {
        match self.terrain_at(p) {
            Some(t) => t == Terrain::Wall,
            None => true,
        }
    }

    pub open spec fn spec_is_exit(&self, p: Position) -> bool {
        self.terrain_at(p) == Some(Terrain::Exit)
    }

    pub open spec fn spec_is_room(&self, p: Position) -> bool {
        match self.terrain_at(p) {
            Some(t) => terrain_is_room(t),
            None => false,
        }
    }

    pub open spec fn spec_same_room(&self, a: Position, b: Position) -> bool {
        match (self.terrain_at(a), self.terrain_at(b)) {
            (Some(Terrain::Floor { room_id: ra }), Some(Terrain::Floor { room_id: rb })) => ra == rb,
            _ => false,
        }
    }

    pub open spec fn spec_render_char(&self, p: Position) -> char {
        match self.terrain_at(p) {
            Some(t) => terrain_char(t),
            None => ' ',
        }
    }

    /// Whether the cell at integer coordinates inside the map is a room tile.
    pub open spec fn is_room_xy(&self, x: int, y: int) -> bool {
        self.in_bounds(x, y) && terrain_is_room(self.terrain(x, y))
    }

    /// The room tiles of the map in row-major order, the first `n` cells counted.
    pub open spec fn room_positions_upto(&self, n: int) -> Seq<Position>
        decreases n,
    {
        if n <= 0 || self.width == 0 {
            seq![]
        } else {
            let k = n - 1;
            let x = k % (self.width as int);
            let y = k / (self.width as int);
            let rest = self.room_positions_upto(k);
            if self.is_room_xy(x, y) {
                rest.push(Position { x: x as i32, y: y as i32 })
            } else {
                rest
            }
        }
    }

    /// All room tiles of the map in row-major order.
    pub open spec fn spec_room_positions(&self) -> Seq<Position> {
        self.room_positions_upto(self.width * self.height)
    }

    pub fn new(width: usize, height: usize, exit_pos: Position) -> (m: GameMap)
        ensures
            m.wf(),
            m.width == width,
            m.height == height,
            m.exit_pos == exit_pos,
            forall|x: int, y: int| m.in_bounds(x, y) ==> m.terrain(x, y) == Terrain::Wall,
    {
        let mut cells: Vec<Vec<MapCell>> = Vec::new();
        let mut y: usize = 0;
        while y < height
            invariant
                y <= height,
                cells@.len() == y,
                forall|j: int| 0 <= j < y ==> #[trigger] cells@[j]@.len() == width,
                forall|j: int, i: int|
                    0 <= j < y && 0 <= i < width ==> (#[trigger] cells@[j]@[i]).terrain
                        == Terrain::Wall,
            decreases height - y,
        {
            let mut row: Vec<MapCell> = Vec::new();
            let mut x: usize = 0;
            while x < width
                invariant
                    x <= width,
                    row@.len() == x,
                    forall|i: int| 0 <= i < x ==> (#[trigger] row@[i]).terrain == Terrain::Wall,
                decreases width - x,
            {
                row.push(MapCell::wall());
                x = x + 1;
            }
            cells.push(row);
            y = y + 1;
        }
        let m = GameMap { width, height, cells, exit_pos };
        assert forall|yy: int| 0 <= yy < m.height implies #[trigger] m.grid()[yy].len() == m.width by {
            assert(cells@[yy]@.len() == width);
        }
        m
    }

    pub fn get(&self, pos: &Position) -> (r: Option<&MapCell>)
        requires
            self.wf(),
        ensures
            r.is_some() == self.in_bounds(pos.x as int, pos.y as int),
            r.is_some() ==> r.unwrap().terrain == self.terrain(pos.x as int, pos.y as int),
    {
        if pos.x < 0 || pos.y < 0 {
            return None;
        }
        let x = pos.x as usize;
        let y = pos.y as usize;
        if y < self.cells.len() {
            proof {
                assert(self.grid()[y as int].len() == self.width);
            }
            let row = &self.cells[y];
            if x < row.len() {
                Some(&row[x])
            } else {
                None
            }
        } else {
            None
        }
    }

    pub fn set(&mut self, x: usize, y: usize, cell: MapCell)
        requires
            old(self).wf(),
        ensures
            final(self).wf(),
            final(self).width == old(self).width,
            final(self).height == old(self).height,
            final(self).exit_pos == old(self).exit_pos,
            forall|i: int, j: int|
                final(self).in_bounds(i, j) ==> final(self).terrain(i, j) == if i == x && j == y {
                    cell.terrain
                } else {
                    old(self).terrain(i, j)
                },
    {
        if y < self.height && x < self.width {
            proof {
                assert(self.grid()[y as int].len() == self.width);
            }
            let ghost old_cells = self.cells@;
            self.cells[y].set(x, cell);
            proof {
                let g = self.grid();
                let og = old(self).grid();
                assert forall|j: int| 0 <= j < self.height implies #[trigger] g[j].len()
                    == self.width by {
                    assert(og[j].len() == old(self).width);
                    assert(g[j].len() == self.cells@[j]@.len());
                    assert(og[j].len() == old_cells[j]@.len());
                    if j != y {
                        assert(self.cells@[j] == old_cells[j]);
                    } else {
                        assert(self.cells@[j]@.len() == old_cells[j]@.len());
                    }
                }
                assert forall|i: int, j: int| self.in_bounds(i, j) implies self.terrain(i, j)
                    == if i == x && j == y {
                    cell.terrain
                } else {
                    old(self).terrain(i, j)
                } by {
                    if j != y {
                        assert(self.cells@[j] == old_cells[j]);
                    }
                }
            }
        }
    }

    pub fn is_walkable(&self, pos: &Position) -> (b: bool)
        requires
            self.wf(),
        ensures
            b == self.spec_is_walkable(*pos),
    {
        match self.get(pos) {
            Some(c) => c.is_walkable(),
            None => false,
        }
    }

    pub fn is_wall(&self, pos: &Position) -> (b: bool)
        requires
            self.wf(),
        ensures
            b == self.spec_is_wall(*pos),
    {
        match self.get(pos) {
            Some(c) => c.terrain == Terrain::Wall,
            None => true,
        }
    }

    pub fn is_exit(&self, pos: &Position) -> (b: bool)
        requires
            self.wf(),
        ensures
            b == self.spec_is_exit(*pos),
    {
        match self.get(pos) {
            Some(c) => c.terrain == Terrain::Exit,
            None => false,
        }
    }

    pub fn is_same_room(&self, a: &Position, b: &Position) -> (r: bool)
        requires
            self.wf(),
        ensures
            r == self.spec_same_room(*a, *b),
    {
        match (self.get(a), self.get(b)) {
            (Some(ca), Some(cb)) => match (ca.terrain, cb.terrain) {
                (Terrain::Floor { room_id: ra }, Terrain::Floor { room_id: rb }) => ra == rb,
                _ => false,
            },
            _ => false,
        }
    }

    pub fn room_positions(&self) -> (r: Vec<Position>)
        requires
            self.wf(),
            self.width <= i32::MAX,
            self.height <= i32::MAX,
        ensures
            r@ == self.spec_room_positions(),
    {
        let mut positions: Vec<Position> = Vec::new();
        let mut y: usize = 0;
        while y < self.height
            invariant
                self.wf(),
                self.width <= i32::MAX,
                self.height <= i32::MAX,
                y <= self.height,
                positions@ == self.room_positions_upto(y * self.width),
            decreases self.height - y,
        {
            let mut x: usize = 0;
            while x < self.width
                invariant
                    self.wf(),
                    self.width <= i32::MAX,
                    self.height <= i32::MAX,
                    y < self.height,
                    x <= self.width,
                    positions@ == self.room_positions_upto(y * self.width + x),
                decreases self.width - x,
            {
                proof {
                    let k = y * self.width + x;
                    assert(k % (self.width as int) == x) by (nonlinear_arith)
                        requires k == y * self.width + x, x < self.width;
                    assert(k / (self.width as int) == y) by (nonlinear_arith)
                        requires k == y * self.width + x, x < self.width;
                    assert(self.grid()[y as int].len() == self.width);
                }
                if self.cells[y][x].is_room() {
                    positions.push(Position::new(x as i32, y as i32));
                }
                proof {
                    assert((y * self.width + x + 1) as int == y * self.width + x + 1);
                }
                x = x + 1;
            }
            proof {
                assert(y * self.width + self.width == (y + 1) * self.width) by (nonlinear_arith);
            }
            y = y + 1;
        }
        proof {
            assert(self.height * self.width == self.width * self.height) by (nonlinear_arith);
        }
        positions
    }

    pub fn render_char(&self, pos: &Position) -> (c: char)
        requires
            self.wf(),
        ensures
            c == self.spec_render_char(*pos),
    {
        match self.get(pos) {
            Some(cell) => match cell.terrain {
                Terrain::Wall => ' ',
                Terrain::Floor { .. } => '.',
                Terrain::Aisle => '-',
                Terrain::Exit => '+',
            },
            None => ' ',
        }
    }
}

} // verus!
