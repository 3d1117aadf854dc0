use vstd::prelude::*;

use super::cell::{GameMap, MapCell, Terrain};
use super::reach::{floor_connected, lemma_floor_connected};
use crate::game::types::Position;
use crate::rng::{random_below, random_usize_in};
use super::links::{
    across, cut_geometry, lemma_beside_ids, lemma_beside_ids2, lemma_cut_relinked, lemma_no_new, lemma_relinked_reach,
    lemma_relinked_wf, lemma_same_links, links_below, links_wf, lists, opposite, relinked, touching,
};

verus! {

pub const MIN_ROOM_SIZE: usize = 3;
pub const MIN_AISLE_SIZE: usize = 2;
pub const MIN_CUT_SIZE: usize = 14;
pub const CUT_TRIAL: usize = 9;
pub const MAP_WIDTH: usize = 100;
pub const MAP_HEIGHT: usize = 50;

/// A cell of the grid, in unsigned coordinates.
#[derive(Clone, Copy, Debug)]
pub struct Point {
    pub x: usize,
    pub y: usize,
}

/// The room laid out inside an area.
#[derive(Clone, Copy, Debug)]
pub struct Room {
    pub x: usize,
    pub y: usize,
    pub w: usize,
    pub h: usize,
    pub idx: usize,
}

impl Room {
    pub fn new() -> (r: Self)
        ensures
            r.x == 0 && r.y == 0 && r.w == 0 && r.h == 0 && r.idx == 0,
    {
        Room { x: 0, y: 0, w: 0, h: 0, idx: 0 }
    }
}

/// The indices of the neighbouring areas on each side.
#[derive(Debug)]
pub struct Link {
    pub up: Vec<usize>,
    pub down: Vec<usize>,
    pub left: Vec<usize>,
    pub right: Vec<usize>,
}

impl Link {
    pub fn new() -> (l: Link)
        ensures
            l.up@.len() == 0 && l.down@.len() == 0 && l.left@.len() == 0 && l.right@.len() == 0,
    {
        Link { up: Vec::new(), down: Vec::new(), left: Vec::new(), right: Vec::new() }
    }
}

/// A rectangle of the map with its links and its room.
#[derive(Debug)]
pub struct Area {
    pub x: usize,
    pub y: usize,
    pub w: usize,
    pub h: usize,
    pub idx: usize,
    pub link: Link,
    pub room: Room,
}

#[derive(PartialEq, Eq, Debug, Clone, Copy, Structural)]
pub enum CutType {
    Vertical,
    Horizontal,
}

impl Area {
    pub fn new() -> (a: Area)
        ensures
            a.x == 0 && a.y == 0 && a.w == 0 && a.h == 0 && a.idx == 0,
            a.room.x == 0 && a.room.y == 0 && a.room.w == 0 && a.room.h == 0 && a.room.idx == 0,
            a.link.up@.len() == 0 && a.link.down@.len() == 0 && a.link.left@.len() == 0 && a.link.right@.len() == 0,
    {
        Area { x: 0, y: 0, w: 0, h: 0, idx: 0, link: Link::new(), room: Room::new() }
    }

    pub open spec fn spec_is_link(&self, target: &Area, cut_type: CutType) -> bool {
        match cut_type {
            CutType::Horizontal => !(self.y > target.y + target.h || target.y > self.y + self.h),
            CutType::Vertical => !(self.x > target.x + target.w || target.x > self.x + self.w),
        }
    }

    /// Whether two areas still touch along the side that a cut of that kind leaves.
    pub fn is_link(&self, target: &Area, cut_type: &CutType) -> (b: bool)
        requires
            self.y + self.h <= usize::MAX,
            target.y + target.h <= usize::MAX,
            self.x + self.w <= usize::MAX,
            target.x + target.w <= usize::MAX,
        ensures
            b == self.spec_is_link(target, *cut_type),
    {
        match cut_type {
            CutType::Horizontal => !(self.y > (target.y + target.h) || target.y > (self.y + self.h)),
            CutType::Vertical => !(self.x > (target.x + target.w) || target.x > (self.x + self.w)),
        }
    }
}

/// The two side lengths that halving keeps among: 100 and 50 halve to 50 and 25, and 25
/// splits into 12 and 13, which are too small to cut again.
pub open spec fn good_w(w: usize) -> bool {
    w == 100 || w == 50 || w == 25 || w == 13 || w == 12
}

pub open spec fn good_h(h: usize) -> bool {
    h == 50 || h == 25 || h == 13 || h == 12
}

pub open spec fn ids_below(v: Seq<usize>, n: int) -> bool {
    forall|i: int| 0 <= i < v.len() ==> #[trigger] v[i] < n
}

pub open spec fn link_below(l: Link, n: int) -> bool {
    ids_below(l.up@, n) && ids_below(l.down@, n) && ids_below(l.left@, n) && ids_below(l.right@, n)
}

/// An area of the partition: its sides keep the halving sizes, it lies in the map, and its
/// links name areas that exist.
pub open spec fn area_ok(a: Area, n: int) -> bool {
    &&& good_w(a.w)
    &&& good_h(a.h)
    &&& a.x + a.w <= MAP_WIDTH
    &&& a.y + a.h <= MAP_HEIGHT
    &&& link_below(a.link, n)
}

pub open spec fn areas_ok(areas: Seq<Area>) -> bool {
    &&& 1 <= areas.len() <= CUT_TRIAL + 1
    &&& forall|i: int| 0 <= i < areas.len() ==> (#[trigger] areas[i]).idx == i && area_ok(areas[i], areas.len() as int)
}

/// The room of an area lies inside it, at least two cells from every side.
pub open spec fn room_ok(a: Area) -> bool {
    &&& a.room.w >= MIN_ROOM_SIZE
    &&& a.room.h >= MIN_ROOM_SIZE
    &&& a.x + MIN_AISLE_SIZE <= a.room.x
    &&& a.room.x + a.room.w + MIN_AISLE_SIZE <= a.x + a.w
    &&& a.y + MIN_AISLE_SIZE <= a.room.y
    &&& a.room.y + a.room.h + MIN_AISLE_SIZE <= a.y + a.h
}

pub fn calc_weight(a: &Area) -> (w: usize)
    requires
        a.w <= MAP_WIDTH,
        a.h <= MAP_HEIGHT,
    ensures
        w == a.w * a.h,
        w <= 5000,
{
    proof {
        assert(a.w * a.h <= MAP_WIDTH * MAP_HEIGHT) by (nonlinear_arith)
            requires a.w <= MAP_WIDTH, a.h <= MAP_HEIGHT;
    }
    a.w * a.h
}

/// An area long enough to be cut on one side.
pub open spec fn cuttable(a: Area) -> bool {
    a.w >= MIN_CUT_SIZE || a.h >= MIN_CUT_SIZE
}

/// The surface of the cuttable areas among the first `k`.
pub open spec fn cut_weight(areas: Seq<Area>, k: int) -> int
    decreases k,
{
    if k <= 0 {
        0
    } else {
        cut_weight(areas, k - 1) + if cuttable(areas[k - 1]) {
            areas[k - 1].w * areas[k - 1].h
        } else {
            0
        }
    }
}

proof fn lemma_cut_weight(areas: Seq<Area>, k: int, j: int)
    requires
        areas_ok(areas),
        0 <= j < k <= areas.len(),
        cuttable(areas[j]),
    ensures
        cut_weight(areas, k) >= 1,
    decreases k,
{
    if j < k - 1 {
        lemma_cut_weight(areas, k - 1, j);
        lemma_cut_weight_nonneg(areas, k);
    } else {
        assert(area_ok(areas[j], areas.len() as int));
        let a = areas[j];
        assert(a.w * a.h >= 1) by (nonlinear_arith)
            requires a.w >= 12, a.h >= 12;
        lemma_cut_weight_nonneg(areas, k - 1);
    }
}

proof fn lemma_cut_weight_nonneg(areas: Seq<Area>, k: int)
    ensures
        cut_weight(areas, k) >= 0,
        k >= 1 ==> cut_weight(areas, k) >= cut_weight(areas, k - 1),
    decreases k,
{
    if k > 0 {
        lemma_cut_weight_nonneg(areas, k - 1);
        let a = areas[k - 1];
        assert(a.w * a.h >= 0) by (nonlinear_arith);
    }
}

/// The total surface of the first `k` areas.
pub open spec fn surface(areas: Seq<Area>, k: int) -> int
    decreases k,
{
    if k <= 0 {
        0
    } else {
        surface(areas, k - 1) + areas[k - 1].w * areas[k - 1].h
    }
}

proof fn lemma_surface_cut(o: Seq<Area>, nw: Seq<Area>, b: int, ct: CutType, k: int)
    requires
        cut_geometry(o, nw, b, ct),
        0 <= k <= o.len(),
    ensures
        surface(nw, k) == surface(o, k) + if b < k {
            nw[b].w * nw[b].h - o[b].w * o[b].h
        } else {
            0
        },
    decreases k,
{
    if k > 0 {
        lemma_surface_cut(o, nw, b, ct, k - 1);
        if k - 1 != b {
            assert(same_geom(o[k - 1], nw[k - 1]));
        }
    }
}

/// Halving an area keeps the total surface.
proof fn lemma_surface_halves(o: Seq<Area>, nw: Seq<Area>, b: int, ct: CutType)
    requires
        cut_geometry(o, nw, b, ct),
    ensures
        surface(nw, nw.len() as int) == surface(o, o.len() as int),
{
    let n = o.len() as int;
    lemma_surface_cut(o, nw, b, ct, n);
    let (a, h0, h1) = (o[b], nw[b], nw[n]);
    match ct {
        CutType::Horizontal => {
            assert(h0.w * h0.h + h1.w * h1.h == a.w * a.h) by (nonlinear_arith)
                requires h0.w == a.w, h1.w == a.w, h0.h + h1.h == a.h;
        },
        CutType::Vertical => {
            assert(h0.w * h0.h + h1.w * h1.h == a.w * a.h) by (nonlinear_arith)
                requires h0.h == a.h, h1.h == a.h, h0.w + h1.w == a.w;
        },
    }
}

/// Areas that cannot be cut any more are at most 13 by 13.
proof fn lemma_surface_small(areas: Seq<Area>, k: int)
    requires
        0 <= k <= areas.len(),
        forall|i: int| 0 <= i < k ==> !cuttable(#[trigger] areas[i]),
    ensures
        surface(areas, k) <= 169 * k,
    decreases k,
{
    if k > 0 {
        lemma_surface_small(areas, k - 1);
        let a = areas[k - 1];
        assert(!cuttable(a));
        assert(a.w * a.h <= 169) by (nonlinear_arith)
            requires a.w < 14, a.h < 14;
    }
}

/// A random area that can still be cut, drawn with weight equal to its surface.
pub fn choose_area(areas: &Vec<Area>) -> (i: usize)
    requires
        areas_ok(areas@),
        exists|j: int| 0 <= j < areas@.len() && #[trigger] cuttable(areas@[j]),
    ensures
        i < areas@.len(),
        cuttable(areas@[i as int]),
        exists|t: int| 0 <= t < cut_weight(areas@, areas@.len() as int) && i == area_pick(areas@, t, 0),
{
    let mut total_weight: usize = 0;
    let mut k: usize = 0;
    while k < areas.len()
        invariant
            areas_ok(areas@),
            k <= areas@.len(),
            total_weight <= k * 5000,
            total_weight == cut_weight(areas@, k as int),
        decreases areas@.len() - k,
    {
        proof {
            assert(area_ok(areas@[k as int], areas@.len() as int));
        }
        if areas[k].w >= MIN_CUT_SIZE || areas[k].h >= MIN_CUT_SIZE {
            total_weight = total_weight + calc_weight(&areas[k]);
        }
        k = k + 1;
    }
    proof {
        let j = choose|j: int| 0 <= j < areas@.len() && #[trigger] cuttable(areas@[j]);
        lemma_cut_weight(areas@, areas@.len() as int, j);
    }
    let target = random_below(total_weight);
    area_at_weight(areas, target)
}

/// The cuttable area that a drawn value `t` selects, looking from area `k` on: the first
/// whose running total of cuttable surface exceeds `t`.
pub open spec fn area_pick(areas: Seq<Area>, t: int, k: int) -> int
    decreases areas.len() - k,
{
    if k < 0 || k >= areas.len() {
        0
    } else if cuttable(areas[k]) && cut_weight(areas, k + 1) > t {
        k
    } else {
        area_pick(areas, t, k + 1)
    }
}

/// The cuttable area that the drawn value `target`, below the total cuttable surface,
/// selects.
pub fn area_at_weight(areas: &Vec<Area>, target: usize) -> (i: usize)
    requires
        areas_ok(areas@),
        target < cut_weight(areas@, areas@.len() as int),
    ensures
        i == area_pick(areas@, target as int, 0),
        i < areas@.len(),
        cuttable(areas@[i as int]),
{
    let ghost total_weight = cut_weight(areas@, areas@.len() as int);
    let mut sum: usize = 0;
    let mut k: usize = 0;
    while k < areas.len()
        invariant
            areas_ok(areas@),
            k <= areas@.len(),
            sum <= k * 5000,
            sum == cut_weight(areas@, k as int),
            sum <= target,
            target < total_weight,
            total_weight == cut_weight(areas@, areas@.len() as int),
            area_pick(areas@, target as int, 0) == area_pick(areas@, target as int, k as int),
        decreases areas@.len() - k,
    {
        proof {
            assert(area_ok(areas@[k as int], areas@.len() as int));
        }
        if areas[k].w >= MIN_CUT_SIZE || areas[k].h >= MIN_CUT_SIZE {
            sum = sum + calc_weight(&areas[k]);
            if target < sum {
                return k;
            }
        }
        k = k + 1;
    }
    0
}

pub fn calc_cut_size(size: usize) -> (s: usize)
    ensures
        s == size / 2,
{
    size / 2
}

/// A copy of a list of area indices.
fn copy_ids(v: &Vec<usize>) -> (r: Vec<usize>)
    ensures
        r@ == v@,
{
    let mut r: Vec<usize> = Vec::new();
    let mut i: usize = 0;
    while i < v.len()
        invariant
            i <= v@.len(),
            r@ == v@.subrange(0, i as int),
        decreases v@.len() - i,
    {
        r.push(v[i]);
        i = i + 1;
        proof {
            assert(r@ =~= v@.subrange(0, i as int));
        }
    }
    proof {
        assert(r@ =~= v@);
    }
    r
}

/// A list of one index.
fn single(x: usize) -> (v: Vec<usize>)
    ensures
        v@ == seq![x],
{
    let mut v: Vec<usize> = Vec::new();
    v.push(x);
    proof {
        assert(v@ =~= seq![x]);
    }
    v
}

/// The position of the first `x` in `v`.
fn position_of(v: &Vec<usize>, x: usize) -> (r: Option<usize>)
    ensures
        r is None <==> !v@.contains(x),
        r matches Some(i) ==> i < v@.len() && v@[i as int] == x && forall|k: int| 0 <= k < i ==> v@[k] != x,
{
    let mut i: usize = 0;
    while i < v.len()
        invariant
            i <= v@.len(),
            forall|k: int| 0 <= k < i ==> v@[k] != x,
        decreases v@.len() - i,
    {
        if v[i] == x {
            return Some(i);
        }
        i = i + 1;
    }
    None
}

/// The position of the last `x` in `v`.
fn last_position_of(v: &Vec<usize>, x: usize) -> (r: Option<usize>)
    ensures
        r is None <==> !v@.contains(x),
        r matches Some(i) ==> i < v@.len() && v@[i as int] == x && forall|k: int| i < k < v@.len() ==> v@[k] != x,
{
    let mut target: Option<usize> = None;
    let mut i: usize = 0;
    while i < v.len()
        invariant
            i <= v@.len(),
            target is None ==> forall|k: int| 0 <= k < i ==> v@[k] != x,
            target matches Some(t) ==> t < i && v@[t as int] == x && forall|k: int| t < k < i ==> v@[k] != x,
        decreases v@.len() - i,
    {
        if v[i] == x {
            target = Some(i);
        }
        i = i + 1;
    }
    target
}

proof fn lemma_ids_remove(v: Seq<usize>, i: int, n: int)
    requires
        ids_below(v, n),
        0 <= i < v.len(),
    ensures
        ids_below(v.remove(i), n),
{
    assert forall|k: int| 0 <= k < v.remove(i).len() implies #[trigger] v.remove(i)[k] < n by {
        if k < i {
            assert(v.remove(i)[k] == v[k]);
        } else {
            assert(v.remove(i)[k] == v[k + 1]);
        }
    }
}

proof fn lemma_ids_push(v: Seq<usize>, x: usize, n: int)
    requires
        ids_below(v, n),
        x < n,
    ensures
        ids_below(v.push(x), n),
{
    assert forall|k: int| 0 <= k < v.push(x).len() implies #[trigger] v.push(x)[k] < n by {
        if k < v.len() {
            assert(v.push(x)[k] == v[k]);
        }
    }
}

proof fn lemma_remove_nodup(v: Seq<usize>, k: int)
    requires
        v.no_duplicates(),
        0 <= k < v.len(),
    ensures
        v.remove(k).no_duplicates(),
        forall|x: usize| v.remove(k).contains(x) <==> (v.contains(x) && x != v[k]),
{
    let r = v.remove(k);
    assert forall|a: int, b: int| 0 <= a < r.len() && 0 <= b < r.len() && a != b implies r[a] != r[b] by {
        let a2 = if a < k { a } else { a + 1 };
        let b2 = if b < k { b } else { b + 1 };
        assert(r[a] == v[a2] && r[b] == v[b2]);
    }
    assert forall|x: usize| r.contains(x) <==> (v.contains(x) && x != v[k]) by {
        if r.contains(x) {
            let a = choose|a: int| 0 <= a < r.len() && r[a] == x;
            let a2 = if a < k { a } else { a + 1 };
            assert(r[a] == v[a2]);
        }
        if v.contains(x) && x != v[k] {
            let a2 = choose|a2: int| 0 <= a2 < v.len() && v[a2] == x;
            let a = if a2 < k { a2 } else { a2 - 1 };
            assert(r[a] == v[a2]);
        }
    }
}

proof fn lemma_push_nodup(v: Seq<usize>, x: usize)
    ensures
        forall|y: usize| v.push(x).contains(y) <==> (v.contains(y) || y == x),
        v.no_duplicates() && !v.contains(x) ==> v.push(x).no_duplicates(),
{
    let r = v.push(x);
    assert forall|y: usize| r.contains(y) <==> (v.contains(y) || y == x) by {
        if r.contains(y) {
            let a = choose|a: int| 0 <= a < r.len() && r[a] == y;
            if a < v.len() {
                assert(v[a] == y);
            }
        }
        if v.contains(y) {
            let a = choose|a: int| 0 <= a < v.len() && v[a] == y;
            assert(r[a] == y);
        }
        if y == x {
            assert(r[v.len() as int] == y);
        }
    }
    if v.no_duplicates() && !v.contains(x) {
        assert forall|a: int, b: int| 0 <= a < r.len() && 0 <= b < r.len() && a != b implies r[a] != r[b] by {
            if a < v.len() && b < v.len() {
                assert(r[a] == v[a] && r[b] == v[b]);
            } else if a < v.len() {
                assert(r[a] == v[a]);
                assert(v.contains(v[a]));
            } else if b < v.len() {
                assert(r[b] == v[b]);
                assert(v.contains(v[b]));
            }
        }
    }
}

/// A side of an area, or the direction of a corridor between two areas.
#[derive(Clone, Copy, Debug, Eq, PartialEq, Structural)]
pub enum LinkType {
    Up,
    Down,
    Left,
    Right,
}

/// The neighbour list of a link on one side.
pub open spec fn side_of(l: Link, side: LinkType) -> Seq<usize> {
    match side {
        LinkType::Up => l.up@,
        LinkType::Down => l.down@,
        LinkType::Left => l.left@,
        LinkType::Right => l.right@,
    }
}

/// The partition's shape with link indices below `bound`.
pub open spec fn areas_shape(areas: Seq<Area>, bound: int) -> bool {
    forall|i: int| 0 <= i < areas.len() ==> (#[trigger] areas[i]).idx == i && good_w(areas[i].w) && good_h(areas[i].h)
        && areas[i].x + areas[i].w <= MAP_WIDTH && areas[i].y + areas[i].h <= MAP_HEIGHT
        && link_below(areas[i].link, bound)
}

/// Two areas have the same place, size, index and room.
pub open spec fn same_geom(a: Area, b: Area) -> bool {
    a.x == b.x && a.y == b.y && a.w == b.w && a.h == b.h && a.idx == b.idx && a.room == b.room
}

pub open spec fn geom_kept(a0: Seq<Area>, a1: Seq<Area>) -> bool {
    a0.len() == a1.len() && forall|j: int| 0 <= j < a0.len() ==> same_geom(#[trigger] a0[j], a1[j])
}

/// Appends `value` to one side's list of area `i`.
fn side_push(areas: &mut Vec<Area>, i: usize, side: LinkType, value: usize)
    requires
        i < old(areas)@.len(),
        areas_shape(old(areas)@, old(areas)@.len() + 1int),
        value <= old(areas)@.len(),
    ensures
        areas_shape(final(areas)@, final(areas)@.len() + 1int),
        geom_kept(old(areas)@, final(areas)@),
        forall|j: int| 0 <= j < old(areas)@.len() && j != i ==> final(areas)@[j] == old(areas)@[j],
        forall|s: LinkType|
            #[trigger] side_of(final(areas)@[i as int].link, s) == if s == side {
                side_of(old(areas)@[i as int].link, s).push(value)
            } else {
                side_of(old(areas)@[i as int].link, s)
            },
{
    let ghost a0 = areas@;
    match side {
        LinkType::Up => areas[i].link.up.push(value),
        LinkType::Down => areas[i].link.down.push(value),
        LinkType::Left => areas[i].link.left.push(value),
        LinkType::Right => areas[i].link.right.push(value),
    }
    proof {
        let n = a0.len() + 1int;
        assert(a0[i as int].idx == i && link_below(a0[i as int].link, n));
        lemma_ids_push(side_of(a0[i as int].link, side), value, n);
        assert forall|j: int| 0 <= j < areas@.len() implies same_geom(#[trigger] a0[j], areas@[j]) by {
            if j != i {
                assert(areas@[j] == a0[j]);
            }
        }
        assert forall|j: int| 0 <= j < areas@.len() implies (#[trigger] areas@[j]).idx == j && good_w(areas@[j].w) && good_h(areas@[j].h)
            && areas@[j].x + areas@[j].w <= MAP_WIDTH && areas@[j].y + areas@[j].h <= MAP_HEIGHT
            && link_below(areas@[j].link, n) by {
            if j != i {
                assert(areas@[j] == a0[j]);
            }
        }
    }
}

/// Removes the first `value` from one side's list of area `i`, if it is there.
fn side_remove(areas: &mut Vec<Area>, i: usize, side: LinkType, value: usize)
    requires
        i < old(areas)@.len(),
        areas_shape(old(areas)@, old(areas)@.len() + 1int),
    ensures
        areas_shape(final(areas)@, final(areas)@.len() + 1int),
        geom_kept(old(areas)@, final(areas)@),
        forall|j: int| 0 <= j < old(areas)@.len() && j != i ==> final(areas)@[j] == old(areas)@[j],
        forall|s: LinkType| s != side ==> #[trigger] side_of(final(areas)@[i as int].link, s) == side_of(old(areas)@[i as int].link, s),
        side_of(old(areas)@[i as int].link, side).no_duplicates() ==> side_of(final(areas)@[i as int].link, side).no_duplicates()
            && forall|x: usize| #[trigger] side_of(final(areas)@[i as int].link, side).contains(x) <==> (side_of(
            old(areas)@[i as int].link,
            side,
        ).contains(x) && x != value),
{
    let ghost a0 = areas@;
    let pos = match side {
        LinkType::Up => position_of(&areas[i].link.up, value),
        LinkType::Down => position_of(&areas[i].link.down, value),
        LinkType::Left => position_of(&areas[i].link.left, value),
        LinkType::Right => position_of(&areas[i].link.right, value),
    };
    if let Some(k) = pos {
        match side {
            LinkType::Up => { areas[i].link.up.remove(k); },
            LinkType::Down => { areas[i].link.down.remove(k); },
            LinkType::Left => { areas[i].link.left.remove(k); },
            LinkType::Right => { areas[i].link.right.remove(k); },
        }
        proof {
            let n = a0.len() + 1int;
            assert(a0[i as int].idx == i && link_below(a0[i as int].link, n));
            lemma_ids_remove(side_of(a0[i as int].link, side), k as int, n);
            assert(side_of(areas@[i as int].link, side) == side_of(a0[i as int].link, side).remove(k as int));
            if side_of(a0[i as int].link, side).no_duplicates() {
                lemma_remove_nodup(side_of(a0[i as int].link, side), k as int);
            }
            assert forall|j: int| 0 <= j < areas@.len() implies same_geom(#[trigger] a0[j], areas@[j]) by {
                if j != i {
                    assert(areas@[j] == a0[j]);
                }
            }
            assert forall|j: int| 0 <= j < areas@.len() implies (#[trigger] areas@[j]).idx == j && good_w(areas@[j].w) && good_h(areas@[j].h)
                && areas@[j].x + areas@[j].w <= MAP_WIDTH && areas@[j].y + areas@[j].h <= MAP_HEIGHT
                && link_below(areas@[j].link, n) by {
                if j != i {
                    assert(areas@[j] == a0[j]);
                }
            }
        }
    }
}

/// Replaces the last `from` in one side's list of area `i` by `to` at the end of the list;
/// tells whether `from` was there.
fn side_replace_last(areas: &mut Vec<Area>, i: usize, side: LinkType, from: usize, to: usize) -> (found: bool)
    requires
        i < old(areas)@.len(),
        areas_shape(old(areas)@, old(areas)@.len() + 1int),
        to <= old(areas)@.len(),
    ensures
        areas_shape(final(areas)@, final(areas)@.len() + 1int),
        geom_kept(old(areas)@, final(areas)@),
        found == side_of(old(areas)@[i as int].link, side).contains(from),
        forall|j: int| 0 <= j < old(areas)@.len() && j != i ==> final(areas)@[j] == old(areas)@[j],
        forall|s: LinkType| s != side ==> #[trigger] side_of(final(areas)@[i as int].link, s) == side_of(old(areas)@[i as int].link, s),
        !found ==> side_of(final(areas)@[i as int].link, side) == side_of(old(areas)@[i as int].link, side),
        found && side_of(old(areas)@[i as int].link, side).no_duplicates() && !side_of(old(areas)@[i as int].link, side).contains(to)
            ==> side_of(final(areas)@[i as int].link, side).no_duplicates() && forall|x: usize|
            #[trigger] side_of(final(areas)@[i as int].link, side).contains(x) <==> ((side_of(
            old(areas)@[i as int].link,
            side,
        ).contains(x) && x != from) || x == to),
{
    let pos = match side {
        LinkType::Up => last_position_of(&areas[i].link.up, from),
        LinkType::Down => last_position_of(&areas[i].link.down, from),
        LinkType::Left => last_position_of(&areas[i].link.left, from),
        LinkType::Right => last_position_of(&areas[i].link.right, from),
    };
    if let Some(k) = pos {
        let ghost a0 = areas@;
        match side {
            LinkType::Up => { areas[i].link.up.remove(k); },
            LinkType::Down => { areas[i].link.down.remove(k); },
            LinkType::Left => { areas[i].link.left.remove(k); },
            LinkType::Right => { areas[i].link.right.remove(k); },
        }
        proof {
            let n = a0.len() + 1int;
            assert(a0[i as int].idx == i && link_below(a0[i as int].link, n));
            lemma_ids_remove(side_of(a0[i as int].link, side), k as int, n);
            assert(side_of(areas@[i as int].link, side) == side_of(a0[i as int].link, side).remove(k as int));
            if side_of(a0[i as int].link, side).no_duplicates() {
                lemma_remove_nodup(side_of(a0[i as int].link, side), k as int);
                lemma_push_nodup(side_of(a0[i as int].link, side).remove(k as int), to);
            }
            assert forall|j: int| 0 <= j < areas@.len() implies same_geom(#[trigger] a0[j], areas@[j]) by {
                if j != i {
                    assert(areas@[j] == a0[j]);
                }
            }
            assert forall|j: int| 0 <= j < areas@.len() implies (#[trigger] areas@[j]).idx == j && good_w(areas@[j].w) && good_h(areas@[j].h)
                && areas@[j].x + areas@[j].w <= MAP_WIDTH && areas@[j].y + areas@[j].h <= MAP_HEIGHT
                && link_below(areas@[j].link, n) by {
                if j != i {
                    assert(areas@[j] == a0[j]);
                }
            }
        }
        side_push(areas, i, side, to);
        true
    } else {
        false
    }
}

/// An area with the same place, size, index and room, and no links.
fn shape_of(a: &Area) -> (r: Area)
    ensures
        same_geom(r, *a),
        link_below(r.link, 0),
{
    Area { x: a.x, y: a.y, w: a.w, h: a.h, idx: a.idx, link: Link::new(), room: a.room }
}

/// A copy of an area.
fn copy_area(a: &Area) -> (r: Area)
    ensures
        same_geom(r, *a),
        r.link.up@ == a.link.up@,
        r.link.down@ == a.link.down@,
        r.link.left@ == a.link.left@,
        r.link.right@ == a.link.right@,
{
    Area {
        x: a.x,
        y: a.y,
        w: a.w,
        h: a.h,
        idx: a.idx,
        link: Link {
            up: copy_ids(&a.link.up),
            down: copy_ids(&a.link.down),
            left: copy_ids(&a.link.left),
            right: copy_ids(&a.link.right),
        },
        room: a.room,
    }
}

/// For each area `i` of `ids` that listed `idx` on side `far_side`, that entry moves to the
/// new area `new_idx`, which in turn lists `i`.
fn relink_across(
    areas: &mut Vec<Area>,
    ids: &Vec<usize>,
    far_side: LinkType,
    idx: usize,
    new_idx: usize,
    area_list: &mut Vec<usize>,
)
    requires
        areas_shape(old(areas)@, old(areas)@.len() + 1int),
        new_idx == old(areas)@.len(),
        ids_below(ids@, old(areas)@.len() as int),
        ids_below(old(area_list)@, old(areas)@.len() + 1int),
        ids@.no_duplicates(),
        forall|q: int|
            0 <= q < ids@.len() ==> {
                let l = side_of(old(areas)@[#[trigger] ids@[q] as int].link, far_side);
                l.contains(idx) && l.no_duplicates() && !l.contains(new_idx)
            },
    ensures
        areas_shape(final(areas)@, final(areas)@.len() + 1int),
        geom_kept(old(areas)@, final(areas)@),
        ids_below(final(area_list)@, final(areas)@.len() + 1int),
        final(area_list)@ == old(area_list)@ + ids@,
        forall|j: int|
            0 <= j < old(areas)@.len() && !ids@.contains(j as usize) ==> #[trigger] final(areas)@[j] == old(areas)@[j],
        forall|j: int, s: LinkType|
            0 <= j < old(areas)@.len() && ids@.contains(j as usize) && s != far_side ==> #[trigger] side_of(
                final(areas)@[j].link,
                s,
            ) == side_of(old(areas)@[j].link, s),
        forall|j: int|
            0 <= j < old(areas)@.len() && ids@.contains(j as usize) ==> side_of(
                (#[trigger] final(areas)@[j]).link,
                far_side,
            ).no_duplicates() && forall|x: usize|
                #[trigger] side_of(final(areas)@[j].link, far_side).contains(x) <==> ((side_of(
                    old(areas)@[j].link,
                    far_side,
                ).contains(x) && x != idx) || x == new_idx),
{
    let ghost a0 = areas@;
    let ghost l0 = area_list@;
    let mut k: usize = 0;
    proof {
        assert(ids@.take(0) =~= Seq::<usize>::empty());
        assert(area_list@ =~= l0 + ids@.take(0));
    }
    while k < ids.len()
        invariant
            areas_shape(areas@, areas@.len() + 1int),
            new_idx == areas@.len(),
            a0 == old(areas)@,
            l0 == old(area_list)@,
            geom_kept(a0, areas@),
            ids_below(ids@, areas@.len() as int),
            ids_below(area_list@, areas@.len() + 1int),
            ids@.no_duplicates(),
            forall|q: int|
                0 <= q < ids@.len() ==> {
                    let l = side_of(a0[#[trigger] ids@[q] as int].link, far_side);
                    l.contains(idx) && l.no_duplicates() && !l.contains(new_idx)
                },
            k <= ids@.len(),
            area_list@ == l0 + ids@.take(k as int),
            forall|j: int|
                0 <= j < a0.len() && !ids@.take(k as int).contains(j as usize) ==> #[trigger] areas@[j] == a0[j],
            forall|j: int, s: LinkType|
                0 <= j < a0.len() && ids@.take(k as int).contains(j as usize) && s != far_side ==> #[trigger] side_of(
                    areas@[j].link,
                    s,
                ) == side_of(a0[j].link, s),
            forall|j: int|
                0 <= j < a0.len() && ids@.take(k as int).contains(j as usize) ==> side_of(
                    (#[trigger] areas@[j]).link,
                    far_side,
                ).no_duplicates() && forall|x: usize|
                    #[trigger] side_of(areas@[j].link, far_side).contains(x) <==> ((side_of(
                        a0[j].link,
                        far_side,
                    ).contains(x) && x != idx) || x == new_idx),
        decreases ids@.len() - k,
    {
        let i = ids[k];
        let ghost pre = areas@;
        let ghost tk = ids@.take(k as int);
        proof {
            assert(ids@[k as int] == i);
            assert(!tk.contains(i)) by {
                if tk.contains(i) {
                    let q = choose|q: int| 0 <= q < tk.len() && tk[q] == i;
                    assert(ids@[q] == ids@[k as int]);
                }
            }
            assert(pre[i as int] == a0[i as int]);
        }
        let found = side_replace_last(areas, i, far_side, idx, new_idx);
        proof {
            assert(found);
            lemma_ids_push(area_list@, i, areas@.len() + 1int);
        }
        area_list.push(i);
        proof {
            let tk1 = ids@.take(k + 1);
            assert(tk1 =~= tk.push(i));
            lemma_push_nodup(tk, i);
            assert(area_list@ =~= l0 + tk1);
            assert forall|j: int| 0 <= j < a0.len() && !tk1.contains(j as usize) implies #[trigger] areas@[j] == a0[j] by {
                assert(!tk.contains(j as usize) && j != i);
            }
            assert forall|j: int, s: LinkType|
                0 <= j < a0.len() && tk1.contains(j as usize) && s != far_side implies #[trigger] side_of(
                    areas@[j].link,
                    s,
                ) == side_of(a0[j].link, s) by {
                if j != i {
                    assert(tk.contains(j as usize));
                    assert(areas@[j] == pre[j]);
                }
            }
            assert forall|j: int|
                0 <= j < a0.len() && tk1.contains(j as usize) implies side_of(
                    (#[trigger] areas@[j]).link,
                    far_side,
                ).no_duplicates() && forall|x: usize|
                    #[trigger] side_of(areas@[j].link, far_side).contains(x) <==> ((side_of(
                        a0[j].link,
                        far_side,
                    ).contains(x) && x != idx) || x == new_idx) by {
                if j != i {
                    assert(tk.contains(j as usize));
                    assert(areas@[j] == pre[j]);
                }
            }
        }
        k = k + 1;
    }
    proof {
        assert(ids@.take(ids@.len() as int) =~= ids@);
    }
}

/// For each neighbour `i` of `ids` on one side: when the cut base no longer touches it, the
/// two drop each other; when the new area touches it, the two list each other.
#[verifier::rlimit(50)]
fn relink_beside(
    areas: &mut Vec<Area>,
    ids: &Vec<usize>,
    cut_type: CutType,
    far_side: LinkType,
    base_shape: &Area,
    area_shape: &Area,
    base_list: &mut Vec<usize>,
    area_list: &mut Vec<usize>,
    idx: usize,
    new_idx: usize,
)
    requires
        areas_shape(old(areas)@, old(areas)@.len() + 1int),
        new_idx == old(areas)@.len(),
        ids_below(ids@, old(areas)@.len() as int),
        ids_below(old(area_list)@, old(areas)@.len() + 1int),
        ids_below(old(base_list)@, old(areas)@.len() + 1int),
        base_shape.x + base_shape.w <= MAP_WIDTH,
        base_shape.y + base_shape.h <= MAP_HEIGHT,
        area_shape.x + area_shape.w <= MAP_WIDTH,
        area_shape.y + area_shape.h <= MAP_HEIGHT,
        ids@.no_duplicates(),
        old(base_list)@.no_duplicates(),
        old(area_list)@.len() == 0,
        forall|q: int|
            0 <= q < ids@.len() ==> {
                let l = side_of(old(areas)@[#[trigger] ids@[q] as int].link, far_side);
                l.no_duplicates() && !l.contains(new_idx)
            },
    ensures
        areas_shape(final(areas)@, final(areas)@.len() + 1int),
        geom_kept(old(areas)@, final(areas)@),
        ids_below(final(area_list)@, final(areas)@.len() + 1int),
        ids_below(final(base_list)@, final(areas)@.len() + 1int),
        final(base_list)@.no_duplicates(),
        forall|x: usize|
            #[trigger] final(base_list)@.contains(x) <==> (old(base_list)@.contains(x) && !(ids@.contains(x)
                && !base_shape.spec_is_link(&old(areas)@[x as int], cut_type))),
        final(area_list)@.no_duplicates(),
        forall|x: usize|
            #[trigger] final(area_list)@.contains(x) <==> (ids@.contains(x) && area_shape.spec_is_link(
                &old(areas)@[x as int],
                cut_type,
            )),
        forall|j: int|
            0 <= j < old(areas)@.len() && !ids@.contains(j as usize) ==> #[trigger] final(areas)@[j] == old(areas)@[j],
        forall|j: int, s: LinkType|
            0 <= j < old(areas)@.len() && ids@.contains(j as usize) && s != far_side ==> #[trigger] side_of(
                final(areas)@[j].link,
                s,
            ) == side_of(old(areas)@[j].link, s),
        forall|j: int|
            0 <= j < old(areas)@.len() && ids@.contains(j as usize) ==> side_of(
                (#[trigger] final(areas)@[j]).link,
                far_side,
            ).no_duplicates() && forall|x: usize|
                #[trigger] side_of(final(areas)@[j].link, far_side).contains(x) <==> ((side_of(
                    old(areas)@[j].link,
                    far_side,
                ).contains(x) && !(x == idx && !base_shape.spec_is_link(&old(areas)@[j], cut_type))) || (x
                    == new_idx && area_shape.spec_is_link(&old(areas)@[j], cut_type))),
{
    let ghost a0 = areas@;
    let ghost b0 = base_list@;
    let mut k: usize = 0;
    proof {
        assert(ids@.take(0) =~= Seq::<usize>::empty());
    }
    while k < ids.len()
        invariant
            areas_shape(areas@, areas@.len() + 1int),
            new_idx == areas@.len(),
            a0 == old(areas)@,
            b0 == old(base_list)@,
            geom_kept(a0, areas@),
            ids_below(ids@, areas@.len() as int),
            ids_below(area_list@, areas@.len() + 1int),
            ids_below(base_list@, areas@.len() + 1int),
            base_shape.x + base_shape.w <= MAP_WIDTH,
            base_shape.y + base_shape.h <= MAP_HEIGHT,
            area_shape.x + area_shape.w <= MAP_WIDTH,
            area_shape.y + area_shape.h <= MAP_HEIGHT,
            ids@.no_duplicates(),
            forall|q: int|
                0 <= q < ids@.len() ==> {
                    let l = side_of(a0[#[trigger] ids@[q] as int].link, far_side);
                    l.no_duplicates() && !l.contains(new_idx)
                },
            k <= ids@.len(),
            base_list@.no_duplicates(),
            forall|x: usize|
                #[trigger] base_list@.contains(x) <==> (b0.contains(x) && !(ids@.take(k as int).contains(x)
                    && !base_shape.spec_is_link(&a0[x as int], cut_type))),
            area_list@.no_duplicates(),
            forall|x: usize|
                #[trigger] area_list@.contains(x) <==> (ids@.take(k as int).contains(x) && area_shape.spec_is_link(
                    &a0[x as int],
                    cut_type,
                )),
            forall|j: int|
                0 <= j < a0.len() && !ids@.take(k as int).contains(j as usize) ==> #[trigger] areas@[j] == a0[j],
            forall|j: int, s: LinkType|
                0 <= j < a0.len() && ids@.take(k as int).contains(j as usize) && s != far_side ==> #[trigger] side_of(
                    areas@[j].link,
                    s,
                ) == side_of(a0[j].link, s),
            forall|j: int|
                0 <= j < a0.len() && ids@.take(k as int).contains(j as usize) ==> side_of(
                    (#[trigger] areas@[j]).link,
                    far_side,
                ).no_duplicates() && forall|x: usize|
                    #[trigger] side_of(areas@[j].link, far_side).contains(x) <==> ((side_of(
                        a0[j].link,
                        far_side,
                    ).contains(x) && !(x == idx && !base_shape.spec_is_link(&a0[j], cut_type))) || (x == new_idx
                        && area_shape.spec_is_link(&a0[j], cut_type))),
        decreases ids@.len() - k,
    {
        let i = ids[k];
        let ghost pre = areas@;
        let ghost bl = base_list@;
        let ghost al = area_list@;
        let ghost tk = ids@.take(k as int);
        let ghost tk1 = ids@.take(k + 1);
        proof {
            assert(ids@[k as int] == i);
            assert(!tk.contains(i)) by {
                if tk.contains(i) {
                    let q = choose|q: int| 0 <= q < tk.len() && tk[q] == i;
                    assert(ids@[q] == ids@[k as int]);
                }
            }
            assert(pre[i as int] == a0[i as int]);
            assert(areas@[i as int].idx == i);
            assert(tk1 =~= tk.push(i));
            lemma_push_nodup(tk, i);
        }
        let touch_base = base_shape.is_link(&areas[i], &cut_type);
        proof {
            assert(touch_base == base_shape.spec_is_link(&a0[i as int], cut_type));
        }
        if !touch_base {
            if let Some(ii) = position_of(base_list, i) {
                proof {
                    lemma_ids_remove(base_list@, ii as int, areas@.len() + 1int);
                    lemma_remove_nodup(base_list@, ii as int);
                }
                base_list.remove(ii);
            }
            side_remove(areas, i, far_side, idx);
        }
        let ghost mid = areas@;
        proof {
            assert(areas@[i as int].idx == i);
            assert(same_geom(a0[i as int], areas@[i as int]));
        }
        let touch_area = area_shape.is_link(&areas[i], &cut_type);
        proof {
            assert(touch_area == area_shape.spec_is_link(&a0[i as int], cut_type));
        }
        let ghost bl2 = base_list@;
        if touch_area {
            proof {
                lemma_ids_push(area_list@, i, areas@.len() + 1int);
                lemma_push_nodup(area_list@, i);
                lemma_push_nodup(side_of(areas@[i as int].link, far_side), new_idx);
            }
            area_list.push(i);
            side_push(areas, i, far_side, new_idx);
        }
        proof {
            assert forall|x: usize|
                #[trigger] base_list@.contains(x) <==> (b0.contains(x) && !(tk1.contains(x)
                    && !base_shape.spec_is_link(&a0[x as int], cut_type))) by {
                assert(bl.contains(x) <==> (b0.contains(x) && !(tk.contains(x) && !base_shape.spec_is_link(
                    &a0[x as int],
                    cut_type,
                ))));
                assert(base_list@ == bl2);
                if x != i {
                    assert(tk1.contains(x) == tk.contains(x));
                }
                if touch_base {
                    assert(bl2 == bl);
                } else if bl.contains(i) {
                    assert(bl2.contains(x) <==> (bl.contains(x) && x != i));
                } else {
                    assert(bl2 == bl);
                }
            }
            assert forall|x: usize|
                #[trigger] area_list@.contains(x) <==> (tk1.contains(x) && area_shape.spec_is_link(
                    &a0[x as int],
                    cut_type,
                )) by {
                assert(al.contains(x) <==> (tk.contains(x) && area_shape.spec_is_link(&a0[x as int], cut_type)));
                if x != i {
                    assert(tk1.contains(x) == tk.contains(x));
                }
                if touch_area {
                    assert(area_list@ == al.push(i));
                } else {
                    assert(area_list@ == al);
                }
            }
            assert forall|j: int| 0 <= j < a0.len() && !tk1.contains(j as usize) implies #[trigger] areas@[j] == a0[j] by {
                assert(!tk.contains(j as usize) && j != i);
            }
            assert forall|j: int, s: LinkType|
                0 <= j < a0.len() && tk1.contains(j as usize) && s != far_side implies #[trigger] side_of(
                    areas@[j].link,
                    s,
                ) == side_of(a0[j].link, s) by {
                if j != i {
                    assert(tk.contains(j as usize));
                    assert(areas@[j] == pre[j]);
                }
            }
            assert forall|j: int|
                0 <= j < a0.len() && tk1.contains(j as usize) implies side_of(
                    (#[trigger] areas@[j]).link,
                    far_side,
                ).no_duplicates() && forall|x: usize|
                    #[trigger] side_of(areas@[j].link, far_side).contains(x) <==> ((side_of(
                        a0[j].link,
                        far_side,
                    ).contains(x) && !(x == idx && !base_shape.spec_is_link(&a0[j], cut_type))) || (x == new_idx
                        && area_shape.spec_is_link(&a0[j], cut_type))) by {
                if j != i {
                    assert(tk.contains(j as usize));
                    assert(areas@[j] == pre[j]);
                } else {
                    let l0 = side_of(a0[i as int].link, far_side);
                    let l1 = side_of(mid[i as int].link, far_side);
                    let l2 = side_of(areas@[i as int].link, far_side);
                    assert(l0.no_duplicates() && !l0.contains(new_idx));
                    if !touch_base {
                        assert(l1.no_duplicates());
                        assert(forall|x: usize| #[trigger] l1.contains(x) <==> (l0.contains(x) && x != idx));
                    } else {
                        assert(l1 == l0);
                    }
                    assert(!l1.contains(new_idx));
                    if touch_area {
                        assert(l2 == l1.push(new_idx));
                        lemma_push_nodup(l1, new_idx);
                    } else {
                        assert(l2 == l1);
                    }
                    assert(l2.no_duplicates());
                    assert forall|x: usize| #[trigger] l2.contains(x) <==> ((l0.contains(x) && !(x == idx
                        && !base_shape.spec_is_link(&a0[i as int], cut_type))) || (x == new_idx
                        && area_shape.spec_is_link(&a0[i as int], cut_type))) by {
                        if touch_area {
                            assert(l2.contains(x) <==> (l1.contains(x) || x == new_idx));
                        }
                        if !touch_base {
                            assert(l1.contains(x) <==> (l0.contains(x) && x != idx));
                        }
                    }
                }
            }
        }
        k = k + 1;
    }
    proof {
        assert(ids@.take(ids@.len() as int) =~= ids@);
    }
}

/// Cell `(x, y)` lies in area `a`.
pub open spec fn holds_cell(a: Area, x: int, y: int) -> bool {
    a.x <= x < a.x + a.w && a.y <= y < a.y + a.h
}

/// Two areas share no cell.
pub open spec fn apart(a: Area, b: Area) -> bool {
    a.x + a.w <= b.x || b.x + b.w <= a.x || a.y + a.h <= b.y || b.y + b.h <= a.y
}

/// Some area holds cell `(x, y)`.
pub open spec fn covered(areas: Seq<Area>, x: int, y: int) -> bool {
    exists|i: int| 0 <= i < areas.len() && #[trigger] holds_cell(areas[i], x, y)
}

/// The areas tile the map: no two share a cell, and every cell of the map lies in one.
pub open spec fn tiles(areas: Seq<Area>) -> bool {
    &&& forall|i: int, j: int| 0 <= i < j < areas.len() ==> #[trigger] apart(areas[i], areas[j])
    &&& forall|x: int, y: int| 0 <= x < MAP_WIDTH && 0 <= y < MAP_HEIGHT ==> #[trigger] covered(areas, x, y)
}

/// `b0` and `b1` are the two halves of `a` cut as `cut` says, `b0` first.
pub open spec fn halves(a: Area, b0: Area, b1: Area, cut: CutType) -> bool {
    match cut {
        CutType::Horizontal => b0.x == a.x && b1.x == a.x && b0.w == a.w && b1.w == a.w && b0.y == a.y && b1.y
            == a.y + b0.h && b0.h == a.h / 2 && b0.h + b1.h == a.h,
        CutType::Vertical => b0.y == a.y && b1.y == a.y && b0.h == a.h && b1.h == a.h && b0.x == a.x && b1.x
            == a.x + b0.w && b0.w == a.w / 2 && b0.w + b1.w == a.w,
    }
}

/// `a1` comes from `a0` by halving one area along a side of at least `MIN_CUT_SIZE` cells:
/// the first half keeps the area's place in the list, the second is appended.
pub open spec fn halving(a0: Seq<Area>, a1: Seq<Area>) -> bool {
    exists|b: int, ct: CutType|
        #[trigger] cut_geometry(a0, a1, b, ct) && (ct == CutType::Vertical ==> a0[b].w >= MIN_CUT_SIZE) && (ct
            == CutType::Horizontal ==> a0[b].h >= MIN_CUT_SIZE)
}

/// A cut keeps any partition of the floor a partition: halving one area of a tiling (with
/// at most `CUT_TRIAL` areas) and relinking the neighbours as `cut_one` does keeps the areas
/// tiling the floor with the same total surface, keeps the neighbour lists mutual, touching
/// and free of repeats, and keeps every area reachable from area 0 when it was before.
pub proof fn law_cut_keeps_partition(o: Seq<Area>, nw: Seq<Area>, b: int, ct: CutType)
    requires
        tiles(o),
        links_wf(o),
        links_below(o),
        o.len() <= CUT_TRIAL,
        cut_geometry(o, nw, b, ct),
        relinked(o, nw, b, ct),
    ensures
        tiles(nw),
        links_wf(nw),
        surface(nw, nw.len() as int) == surface(o, o.len() as int),
        links_reach_all(o) ==> links_reach_all(nw),
{
    lemma_tiles_cut(o, nw, b, ct);
    lemma_relinked_wf(o, nw, b, ct);
    lemma_surface_halves(o, nw, b, ct);
    if links_reach_all(o) {
        lemma_relinked_reach(o, nw, b, ct);
    }
}

/// Halving one area keeps the tiling.
proof fn lemma_tiles_cut(a0: Seq<Area>, a1: Seq<Area>, idx: int, cut: CutType)
    requires
        tiles(a0),
        0 <= idx < a0.len(),
        a1.len() == a0.len() + 1,
        halves(a0[idx], a1[idx], a1[a0.len() as int], cut),
        forall|j: int| 0 <= j < a0.len() && j != idx ==> same_geom(#[trigger] a0[j], a1[j]),
    ensures
        tiles(a1),
{
    let n = a0.len() as int;
    assert forall|i: int, j: int| 0 <= i < j < a1.len() implies #[trigger] apart(a1[i], a1[j]) by {
        if j == n {
            if i != idx {
                assert(same_geom(a0[i], a1[i]));
                if i < idx {
                    assert(apart(a0[i], a0[idx]));
                } else {
                    assert(apart(a0[idx], a0[i]));
                }
            }
        } else if i == idx {
            assert(same_geom(a0[j], a1[j]));
            assert(apart(a0[i], a0[j]));
        } else if j == idx {
            assert(same_geom(a0[i], a1[i]));
            assert(apart(a0[i], a0[j]));
        } else {
            assert(same_geom(a0[i], a1[i]));
            assert(same_geom(a0[j], a1[j]));
            assert(apart(a0[i], a0[j]));
        }
    }
    assert forall|x: int, y: int| 0 <= x < MAP_WIDTH && 0 <= y < MAP_HEIGHT implies #[trigger] covered(a1, x, y) by {
        assert(covered(a0, x, y));
        let i = choose|i: int| 0 <= i < a0.len() && #[trigger] holds_cell(a0[i], x, y);
        if i == idx {
            if holds_cell(a1[idx], x, y) {
                assert(holds_cell(a1[idx], x, y));
            } else {
                assert(holds_cell(a1[n], x, y));
            }
        } else {
            assert(same_geom(a0[i], a1[i]));
            assert(holds_cell(a1[i], x, y));
        }
    }
}

/// The rooms of areas that tile the map share no cell.
pub proof fn law_rooms_apart(areas: Seq<Area>, i: int, j: int)
    requires
        tiles(areas),
        0 <= i < j < areas.len(),
        room_ok(areas[i]),
        room_ok(areas[j]),
    ensures
        areas[i].room.x + areas[i].room.w <= areas[j].room.x || areas[j].room.x + areas[j].room.w <= areas[i].room.x
            || areas[i].room.y + areas[i].room.h <= areas[j].room.y || areas[j].room.y + areas[j].room.h
            <= areas[i].room.y,
{
    assert(apart(areas[i], areas[j]));
}

/// Cuts area `idx` in two halves of the given kind; the second half becomes a new area at
/// the end, and the links of both halves and of their neighbours are updated.
#[verifier::rlimit(100)]
#[verifier::spinoff_prover]
fn cut_one(areas: &mut Vec<Area>, idx: usize, cut_type: CutType)
    requires
        areas_ok(old(areas)@),
        links_wf(old(areas)@),
        old(areas)@.len() <= CUT_TRIAL,
        idx < old(areas)@.len(),
        cut_type == CutType::Vertical ==> old(areas)@[idx as int].w >= MIN_CUT_SIZE,
        cut_type == CutType::Horizontal ==> old(areas)@[idx as int].h >= MIN_CUT_SIZE,
    ensures
        areas_ok(final(areas)@),
        final(areas)@.len() == old(areas)@.len() + 1,
        halves(old(areas)@[idx as int], final(areas)@[idx as int], final(areas)@[old(areas)@.len() as int], cut_type),
        forall|j: int| 0 <= j < old(areas)@.len() && j != idx ==> same_geom(#[trigger] old(areas)@[j], final(areas)@[j]),
        relinked(old(areas)@, final(areas)@, idx as int, cut_type),
        links_wf(final(areas)@),
        links_reach_all(old(areas)@) ==> links_reach_all(final(areas)@),
{
    let n = areas.len();
    let new_idx = n;
    let ghost o = areas@;
    proof {
        assert(area_ok(areas@[idx as int], n as int));
        assert(areas_shape(areas@, n + 1int));
        assert forall|p: int| 0 <= p < o.len() implies link_below(#[trigger] o[p].link, o.len() as int) by {
            assert(area_ok(o[p], n as int));
        }
        assert(links_below(o));
    }
    let mut base = copy_area(&areas[idx]);
    let mut area = Area::new();
    area.idx = new_idx;

    match cut_type {
        CutType::Horizontal => {
            let new_size = calc_cut_size(base.h);
            area.x = base.x;
            area.y = base.y + new_size;
            area.w = base.w;
            area.h = base.h - new_size;
            base.h = new_size;
        },
        CutType::Vertical => {
            let new_size = calc_cut_size(base.w);
            area.x = base.x + new_size;
            area.y = base.y;
            area.w = base.w - new_size;
            area.h = base.h;
            base.w = new_size;
        },
    }
    let base_shape = shape_of(&base);
    let area_shape = shape_of(&area);
    let ghost a_before = areas@;
    let ghost s1: LinkType;
    let ghost a1: Seq<Area>;
    let ghost a2: Seq<Area>;
    let ghost a3: Seq<Area>;
    let fwd_side = if cut_type == CutType::Horizontal { LinkType::Down } else { LinkType::Right };
    proof {
        assert(side_of(o[idx as int].link, LinkType::Up).no_duplicates());
        assert(side_of(o[idx as int].link, LinkType::Down).no_duplicates());
        assert(side_of(o[idx as int].link, LinkType::Left).no_duplicates());
        assert(side_of(o[idx as int].link, LinkType::Right).no_duplicates());
        assert(base.link.up@ == side_of(o[idx as int].link, LinkType::Up));
        assert(base.link.down@ == side_of(o[idx as int].link, LinkType::Down));
        assert(base.link.left@ == side_of(o[idx as int].link, LinkType::Left));
        assert(base.link.right@ == side_of(o[idx as int].link, LinkType::Right));
        assert(fwd_side == across(cut_type));
        // the neighbours beyond the cut list the base back, once, and never the new area
        assert forall|q: int| 0 <= q < side_of(o[idx as int].link, fwd_side).len() implies {
            let l = side_of(o[#[trigger] side_of(o[idx as int].link, fwd_side)[q] as int].link, opposite(fwd_side));
            l.contains(idx) && l.no_duplicates() && !l.contains(new_idx)
        } by {
            let i = side_of(o[idx as int].link, fwd_side)[q];
            assert(lists(o, idx as int, fwd_side, i));
            assert(i < n) by {
                assert(link_below(o[idx as int].link, n as int));
            }
            assert(lists(o, i as int, opposite(fwd_side), idx));
            assert(side_of(o[i as int].link, opposite(fwd_side)).no_duplicates());
            lemma_no_new(o, i as int, opposite(fwd_side));
        }
    }

    match cut_type {
        CutType::Horizontal => {
            let downs = copy_ids(&base.link.down);
            relink_across(areas, &downs, LinkType::Up, idx, new_idx, &mut area.link.down);
            proof {
                a1 = areas@;
                s1 = LinkType::Left;
            }
            base.link.down = single(new_idx);
            area.link.up = single(idx);
            let rights = copy_ids(&base.link.right);
            proof {
                lemma_beside_ids(o, a1, idx as int, LinkType::Left, LinkType::Up);
            }
            relink_beside(areas, &rights, CutType::Horizontal, LinkType::Left, &base_shape, &area_shape,
                &mut base.link.right, &mut area.link.right, idx, new_idx);
            proof {
                a2 = areas@;
            }
            let lefts = copy_ids(&base.link.left);
            proof {
                lemma_beside_ids2(o, a1, a2, idx as int, LinkType::Left, LinkType::Up);
            }
            relink_beside(areas, &lefts, CutType::Horizontal, LinkType::Right, &base_shape, &area_shape,
                &mut base.link.left, &mut area.link.left, idx, new_idx);
            proof {
                a3 = areas@;
            }
        },
        CutType::Vertical => {
            let rights = copy_ids(&base.link.right);
            relink_across(areas, &rights, LinkType::Left, idx, new_idx, &mut area.link.right);
            proof {
                a1 = areas@;
                s1 = LinkType::Down;
            }
            base.link.right = single(new_idx);
            area.link.left = single(idx);
            let ups = copy_ids(&base.link.up);
            proof {
                lemma_beside_ids(o, a1, idx as int, LinkType::Down, LinkType::Left);
            }
            relink_beside(areas, &ups, CutType::Vertical, LinkType::Down, &base_shape, &area_shape,
                &mut base.link.up, &mut area.link.up, idx, new_idx);
            proof {
                a2 = areas@;
            }
            let downs = copy_ids(&base.link.down);
            proof {
                lemma_beside_ids2(o, a1, a2, idx as int, LinkType::Down, LinkType::Left);
            }
            relink_beside(areas, &downs, CutType::Vertical, LinkType::Up, &base_shape, &area_shape,
                &mut base.link.down, &mut area.link.down, idx, new_idx);
            proof {
                a3 = areas@;
            }
        },
    }
    proof {
        assert(same_geom(a_before[idx as int], areas@[idx as int]));
        assert(link_below(base.link, n + 1int)) by {
            assert(ids_below(base.link.up@, n + 1int));
            assert(ids_below(base.link.down@, n + 1int));
            assert(ids_below(base.link.left@, n + 1int));
            assert(ids_below(base.link.right@, n + 1int));
        }
        assert(link_below(area.link, n + 1int)) by {
            assert(ids_below(area.link.up@, n + 1int));
            assert(ids_below(area.link.down@, n + 1int));
            assert(ids_below(area.link.left@, n + 1int));
            assert(ids_below(area.link.right@, n + 1int));
        }
    }
    areas.set(idx, base);
    areas.push(area);
    proof {
        let a = areas@;
        assert forall|i: int| 0 <= i < a.len() implies (#[trigger] a[i]).idx == i && area_ok(a[i], a.len() as int) by {
            if i < n && i != idx {
                assert(same_geom(a_before[i], a[i]));
                assert(a_before[i].idx == i);
            }
        }
        assert forall|j: int| 0 <= j < n && j != idx implies same_geom(#[trigger] a_before[j], a[j]) by {
            assert(same_geom(a_before[j], areas@[j]));
        }
        assert(cut_geometry(o, a, idx as int, cut_type));
        lemma_cut_relinked(o, a1, a2, a3, a, idx as int, cut_type, s1);
        lemma_relinked_wf(o, a, idx as int, cut_type);
        if links_reach_all(o) {
            lemma_relinked_reach(o, a, idx as int, cut_type);
        }
    }
}

/// Cuts the partition up to `CUT_TRIAL` times; each time a random cuttable area (weighted by
/// surface) is halved along a random side that is long enough.
pub fn cut_areas(areas: &mut Vec<Area>)
    requires
        areas_ok(old(areas)@),
        old(areas)@.len() == 1,
        tiles(old(areas)@),
        links_wf(old(areas)@),
    ensures
        areas_ok(final(areas)@),
        tiles(final(areas)@),
        links_wf(final(areas)@),
        links_reach_all(final(areas)@),
        final(areas)@.len() == old(areas)@.len() + CUT_TRIAL,
        exists|hist: Seq<Seq<Area>>|
            {
                &&& hist.len() == CUT_TRIAL + 1
                &&& hist[0] == old(areas)@
                &&& hist[CUT_TRIAL as int] == final(areas)@
                &&& forall|k: int| 0 <= k < CUT_TRIAL ==> halving(#[trigger] hist[k], hist[k + 1])
            },
{
    let ghost mut hist: Seq<Seq<Area>> = seq![areas@];
    proof {
        assert(link_path(areas@, seq![0usize]));
        assert(link_reach(areas@, 0));
        // the one area is the whole map
        assert(covered(areas@, 0, 0) && covered(areas@, 99, 49));
        assert(holds_cell(areas@[0], 0, 0) && holds_cell(areas@[0], 99, 49));
        assert(area_ok(areas@[0], 1));
        assert(areas@[0].w == 100 && areas@[0].h == 50);
        assert(surface(areas@, 0) == 0);
        assert(areas@[0].w * areas@[0].h == 5000);
        assert(surface(areas@, 1) == 5000);
    }
    let mut t: usize = 0;
    while t < CUT_TRIAL
        invariant
            areas_ok(areas@),
            tiles(areas@),
            links_wf(areas@),
            links_reach_all(areas@),
            surface(areas@, areas@.len() as int) == 5000,
            t <= CUT_TRIAL,
            areas@.len() == t + 1,
            hist.len() == t + 1,
            hist[0] == old(areas)@,
            hist[t as int] == areas@,
            forall|k: int| 0 <= k < t ==> halving(#[trigger] hist[k], hist[k + 1]),
        decreases CUT_TRIAL - t,
    {
        proof {
            // areas that cannot be cut cover at most 169 cells each, too few for the map
            if forall|j: int| 0 <= j < areas@.len() ==> !cuttable(#[trigger] areas@[j]) {
                lemma_surface_small(areas@, areas@.len() as int);
            }
        }
        let idx = choose_area(areas);
        proof {
            assert(area_ok(areas@[idx as int], areas@.len() as int));
        }
        if areas[idx].w < MIN_CUT_SIZE && areas[idx].h < MIN_CUT_SIZE {
            t = t + 1;
            continue;
        }
        let mut cut_type_list: Vec<CutType> = Vec::new();
        if areas[idx].w >= MIN_CUT_SIZE {
            cut_type_list.push(CutType::Vertical);
        }
        if areas[idx].h >= MIN_CUT_SIZE {
            cut_type_list.push(CutType::Horizontal);
        }
        let cut_type = cut_type_list[random_below(cut_type_list.len())];
        let ghost a0 = areas@;
        cut_one(areas, idx, cut_type);
        proof {
            lemma_tiles_cut(a0, areas@, idx as int, cut_type);
            assert(cut_geometry(a0, areas@, idx as int, cut_type));
            lemma_surface_halves(a0, areas@, idx as int, cut_type);
            assert(halving(a0, areas@));
            let h0 = hist;
            hist = hist.push(areas@);
            assert forall|k: int| 0 <= k < t + 1 implies halving(#[trigger] hist[k], hist[k + 1]) by {
                if k < t {
                    assert(hist[k] == h0[k] && hist[k + 1] == h0[k + 1]);
                }
            }
        }
        t = t + 1;
    }
}

/// Lays out a random room in every area, at least two cells from its sides.
pub fn fix_room_size(areas: &mut Vec<Area>)
    requires
        areas_ok(old(areas)@),
    ensures
        areas_ok(final(areas)@),
        forall|i: int| 0 <= i < final(areas)@.len() ==> room_ok(#[trigger] final(areas)@[i]),
        final(areas)@.len() == old(areas)@.len(),
        forall|i: int| 0 <= i < final(areas)@.len() ==> same_place(#[trigger] old(areas)@[i], final(areas)@[i]),
        forall|i: int| 0 <= i < final(areas)@.len() ==> (#[trigger] final(areas)@[i]).link == old(areas)@[i].link,
{
    let mut k: usize = 0;
    while k < areas.len()
        invariant
            areas_ok(areas@),
            k <= areas@.len(),
            forall|i: int| 0 <= i < k ==> room_ok(#[trigger] areas@[i]),
            areas@.len() == old(areas)@.len(),
            forall|i: int| 0 <= i < areas@.len() ==> same_place(#[trigger] old(areas)@[i], areas@[i]),
            forall|i: int| 0 <= i < areas@.len() ==> (#[trigger] areas@[i]).link == old(areas)@[i].link,
        decreases areas@.len() - k,
    {
        proof {
            assert(area_ok(areas@[k as int], areas@.len() as int));
        }
        let ghost a0 = areas@;
        let aw = areas[k].w;
        let ah = areas[k].h;
        let ax = areas[k].x;
        let ay = areas[k].y;
        let rw = random_usize_in(MIN_ROOM_SIZE, aw - 2 * MIN_AISLE_SIZE);
        let rh = random_usize_in(MIN_ROOM_SIZE, ah - 2 * MIN_AISLE_SIZE);
        let rx = random_usize_in(ax + MIN_AISLE_SIZE, ax + aw - rw - MIN_AISLE_SIZE);
        let ry = random_usize_in(ay + MIN_AISLE_SIZE, ay + ah - rh - MIN_AISLE_SIZE);
        areas[k].room.w = rw;
        areas[k].room.h = rh;
        areas[k].room.x = rx;
        areas[k].room.y = ry;
        proof {
            assert forall|i: int| 0 <= i < areas@.len() implies (#[trigger] areas@[i]).idx == i && area_ok(areas@[i], areas@.len() as int) by {
                if i != k {
                    assert(areas@[i] == a0[i]);
                }
            }
            assert forall|i: int| 0 <= i < k + 1 implies room_ok(#[trigger] areas@[i]) by {
                if i != k {
                    assert(areas@[i] == a0[i]);
                }
            }
            assert forall|i: int| 0 <= i < areas@.len() implies same_place(#[trigger] old(areas)@[i], areas@[i]) by {
                if i != k {
                    assert(areas@[i] == a0[i]);
                }
            }
            assert forall|i: int| 0 <= i < areas@.len() implies (#[trigger] areas@[i]).link == old(areas)@[i].link by {
                if i != k {
                    assert(areas@[i] == a0[i]);
                }
            }
        }
        k = k + 1;
    }
}

/// Cuts the map into areas and lays out a room in each: the areas tile the map, and each
/// room lies inside its area.
pub fn generate_rooms(areas: &mut Vec<Area>)
    requires
        areas_ok(old(areas)@),
        old(areas)@.len() == 1,
        tiles(old(areas)@),
        links_wf(old(areas)@),
    ensures
        areas_ok(final(areas)@),
        tiles(final(areas)@),
        forall|i: int| 0 <= i < final(areas)@.len() ==> room_ok(#[trigger] final(areas)@[i]),
        links_wf(final(areas)@),
        links_reach_all(final(areas)@),
        final(areas)@.len() == CUT_TRIAL + 1,
{
    cut_areas(areas);
    let ghost a0 = areas@;
    fix_room_size(areas);
    proof {
        let a1 = areas@;
        lemma_same_links(a0, a1);
        assert forall|i: int, j: int| 0 <= i < j < a1.len() implies #[trigger] apart(a1[i], a1[j]) by {
            assert(same_place(a0[i], a1[i]) && same_place(a0[j], a1[j]));
            assert(apart(a0[i], a0[j]));
        }
        assert forall|x: int, y: int| 0 <= x < MAP_WIDTH && 0 <= y < MAP_HEIGHT implies #[trigger] covered(a1, x, y) by {
            assert(covered(a0, x, y));
            let i = choose|i: int| 0 <= i < a0.len() && #[trigger] holds_cell(a0[i], x, y);
            assert(same_place(a0[i], a1[i]));
            assert(holds_cell(a1[i], x, y));
        }
    }
}

/// Two areas have the same place and size.
pub open spec fn same_place(a: Area, b: Area) -> bool {
    a.x == b.x && a.y == b.y && a.w == b.w && a.h == b.h
}

/// A room that ends inside the map.
pub open spec fn room_fits(r: Room) -> bool {
    r.x + r.w <= MAP_WIDTH && r.y + r.h <= MAP_HEIGHT
}

/// A room that lies in the map, away from its top and left edges.
pub open spec fn room_in_map(r: Room) -> bool {
    1 <= r.x && r.x + r.w <= MAP_WIDTH && 1 <= r.y && r.y + r.h <= MAP_HEIGHT
}

/// The cell at step `u` along a corridor and `w` across it: a corridor going down runs
/// along the rows, one going right along the columns.
pub open spec fn along(down: bool, u: int, w: int) -> Point {
    if down {
        Point { x: w as usize, y: u as usize }
    } else {
        Point { x: u as usize, y: w as usize }
    }
}

/// The cells of a corridor at step `u`: one cell on the start line before the turn, the
/// whole span between the two lines at the turn, one cell on the end line after it.
pub open spec fn corridor_step(down: bool, u: int, turn: int, s: int, e: int) -> Seq<Point> {
    let lo = if s < e { s } else { e };
    let hi = if s < e { e } else { s };
    if u < turn {
        seq![along(down, u, s)]
    } else if u == turn {
        Seq::new((hi - lo + 1) as nat, |k: int| along(down, u, lo + k))
    } else {
        seq![along(down, u, e)]
    }
}

/// The cells of a corridor from step `u` to step `last`.
pub open spec fn corridor(down: bool, u: int, last: int, turn: int, s: int, e: int) -> Seq<Point>
    decreases last + 1 - u,
{
    if u > last {
        seq![]
    } else {
        corridor_step(down, u, turn, s, e) + corridor(down, u + 1, last, turn, s, e)
    }
}

/// The corridor from room `a` to room `b` lying right of it (or below it when `down`): out
/// of the middle of `a`'s facing side, across at the halfway line, into the middle of `b`'s
/// facing side.
pub open spec fn corridor_between(a: Room, b: Room, down: bool) -> Seq<Point> {
    if down {
        let first = a.y + a.h;
        let last = b.y - 1;
        corridor(true, first, last, (first + last) / 2, (a.x + a.x + a.w) / 2, (b.x + b.x + b.w) / 2)
    } else {
        let first = a.x + a.w;
        let last = b.x - 1;
        corridor(false, first, last, (first + last) / 2, (a.y + a.y + a.h) / 2, (b.y + b.y + b.h) / 2)
    }
}

/// The corridor between rooms `a` and `b` when `b` lies on side `link` of `a`.
pub open spec fn aisle_points(a: Room, b: Room, link: LinkType) -> Seq<Point> {
    match link {
        LinkType::Right => corridor_between(a, b, false),
        LinkType::Left => corridor_between(b, a, false),
        LinkType::Down => corridor_between(a, b, true),
        LinkType::Up => corridor_between(b, a, true),
    }
}

/// The cells of the corridor from room `a` (first) to room `b` (after it, right of it or
/// below it when `down`).
fn corridor_points(a: &Room, b: &Room, down: bool) -> (v: Vec<Point>)
    requires
        room_fits(*a),
        room_fits(*b),
        down ==> b.y >= 1,
        !down ==> b.x >= 1,
    ensures
        v@ == corridor_between(*a, *b, down),
        forall|i: int| 0 <= i < v@.len() ==> (#[trigger] v@[i]).x <= MAP_WIDTH && v@[i].y <= MAP_HEIGHT,
{
    let (first, last, s, e, limit, cross_limit) = if down {
        (a.y + a.h, b.y - 1, (a.x + a.x + a.w) / 2, (b.x + b.x + b.w) / 2, MAP_HEIGHT, MAP_WIDTH)
    } else {
        (a.x + a.w, b.x - 1, (a.y + a.y + a.h) / 2, (b.y + b.y + b.h) / 2, MAP_WIDTH, MAP_HEIGHT)
    };
    let turn = (first + last) / 2;
    let lo = if s < e { s } else { e };
    let hi = if s < e { e } else { s };
    let ghost full = corridor(down, first as int, last as int, turn as int, s as int, e as int);
    let mut v: Vec<Point> = Vec::new();
    let mut i = first;
    while i <= last
        invariant
            first <= i,
            i <= last + 1 || i == first,
            last < limit,
            limit <= MAP_WIDTH,
            lo <= hi <= cross_limit,
            cross_limit <= MAP_WIDTH,
            s <= cross_limit,
            e <= cross_limit,
            lo == (if s < e { s } else { e }),
            hi == (if s < e { e } else { s }),
            down ==> limit == MAP_HEIGHT && cross_limit == MAP_WIDTH,
            !down ==> limit == MAP_WIDTH && cross_limit == MAP_HEIGHT,
            full == corridor(down, first as int, last as int, turn as int, s as int, e as int),
            v@ + corridor(down, i as int, last as int, turn as int, s as int, e as int) == full,
            forall|k: int| 0 <= k < v@.len() ==> (#[trigger] v@[k]).x <= MAP_WIDTH && v@[k].y <= MAP_HEIGHT,
        decreases last + 1 - i,
    {
        let ghost v0 = v@;
        let ghost step = corridor_step(down, i as int, turn as int, s as int, e as int);
        if i < turn {
            v.push(if down { Point { x: s, y: i } } else { Point { x: i, y: s } });
        } else if i == turn {
            let mut j = lo;
            while j <= hi
                invariant
                    lo <= j <= hi + 1,
                    hi <= cross_limit,
                    cross_limit <= MAP_WIDTH,
                    i < limit,
                    limit <= MAP_WIDTH,
                    down ==> limit == MAP_HEIGHT && cross_limit == MAP_WIDTH,
                    !down ==> limit == MAP_WIDTH && cross_limit == MAP_HEIGHT,
                    v@ == v0 + Seq::new((j - lo) as nat, |k: int| along(down, i as int, lo + k)),
                    forall|k: int| 0 <= k < v@.len() ==> (#[trigger] v@[k]).x <= MAP_WIDTH && v@[k].y <= MAP_HEIGHT,
                decreases hi + 1 - j,
            {
                let ghost vj = v@;
                v.push(if down { Point { x: j, y: i } } else { Point { x: i, y: j } });
                proof {
                    assert(v@ =~= v0 + Seq::new((j + 1 - lo) as nat, |k: int| along(down, i as int, lo + k))) by {
                        assert(vj =~= v0 + Seq::new((j - lo) as nat, |k: int| along(down, i as int, lo + k)));
                    }
                }
                j = j + 1;
            }
        } else {
            v.push(if down { Point { x: e, y: i } } else { Point { x: i, y: e } });
        }
        proof {
            assert(v@ =~= v0 + step);
            assert(corridor(down, i as int, last as int, turn as int, s as int, e as int)
                =~= step + corridor(down, i + 1, last as int, turn as int, s as int, e as int));
            assert(v@ + corridor(down, i + 1, last as int, turn as int, s as int, e as int)
                =~= v0 + corridor(down, i as int, last as int, turn as int, s as int, e as int));
        }
        i = i + 1;
    }
    proof {
        assert(v@ + corridor(down, i as int, last as int, turn as int, s as int, e as int) =~= v@);
    }
    v
}

/// The cells of a corridor from room `a` to room `b` on side `link` of `a`: straight out of
/// the middle of `a`'s side, across at the halfway line, and straight into the middle of
/// `b`'s facing side.
pub fn create_aisle_points(a: &Room, b: &Room, link: LinkType) -> (v: Vec<Point>)
    requires
        room_fits(*a),
        room_fits(*b),
        link == LinkType::Right ==> b.x >= 1,
        link == LinkType::Down ==> b.y >= 1,
        link == LinkType::Left ==> a.x >= 1,
        link == LinkType::Up ==> a.y >= 1,
    ensures
        v@ == aisle_points(*a, *b, link),
        forall|i: int| 0 <= i < v@.len() ==> (#[trigger] v@[i]).x <= MAP_WIDTH && v@[i].y <= MAP_HEIGHT,
{
    match link {
        LinkType::Right => corridor_points(a, b, false),
        LinkType::Left => corridor_points(b, a, false),
        LinkType::Down => corridor_points(a, b, true),
        LinkType::Up => corridor_points(b, a, true),
    }
}

/// A corridor from area `from` to area `to`, on side `link_type` of `from`.
#[derive(Clone, Copy, Debug, Eq, PartialEq, Structural)]
pub struct Aisle {
    pub from: usize,
    pub to: usize,
    pub link_type: LinkType,
}

impl Aisle {
    pub fn new(from: usize, to: usize, link_type: LinkType) -> (a: Aisle)
        ensures
            a.from == from && a.to == to && a.link_type == link_type,
    {
        Aisle { from, to, link_type }
    }
}

/// The number of `false` entries.
pub open spec fn count_false(s: Seq<bool>) -> nat
    decreases s.len(),
{
    if s.len() == 0 {
        0
    } else {
        count_false(s.drop_last()) + if s.last() { 0nat } else { 1nat }
    }
}

proof fn lemma_count_false_set(s: Seq<bool>, j: int)
    requires
        0 <= j < s.len(),
        !s[j],
    ensures
        count_false(s.update(j, true)) + 1 == count_false(s),
    decreases s.len(),
{
    let t = s.update(j, true);
    if j == s.len() - 1 {
        assert(t.drop_last() =~= s.drop_last());
    } else {
        assert(t.drop_last() =~= s.drop_last().update(j, true));
        lemma_count_false_set(s.drop_last(), j);
    }
}

proof fn lemma_count_false_zero(s: Seq<bool>)
    requires
        count_false(s) == 0,
    ensures
        forall|i: int| 0 <= i < s.len() ==> #[trigger] s[i],
    decreases s.len(),
{
    if s.len() > 0 {
        lemma_count_false_zero(s.drop_last());
        assert forall|i: int| 0 <= i < s.len() implies #[trigger] s[i] by {
            if i < s.len() - 1 {
                assert(s[i] == s.drop_last()[i]);
            }
        }
    }
}

proof fn lemma_count_false_all_true(s: Seq<bool>)
    requires
        forall|i: int| 0 <= i < s.len() ==> #[trigger] s[i],
    ensures
        count_false(s) == 0,
    decreases s.len(),
{
    if s.len() > 0 {
        assert forall|i: int| 0 <= i < s.drop_last().len() implies #[trigger] s.drop_last()[i] by {
            assert(s.drop_last()[i] == s[i]);
        }
        lemma_count_false_all_true(s.drop_last());
        assert(s[s.len() - 1]);
    }
}

proof fn lemma_count_false_all_false(n: int)
    requires
        n >= 0,
    ensures
        count_false(Seq::new(n as nat, |i: int| false)) == n,
    decreases n,
{
    if n > 0 {
        assert(Seq::new(n as nat, |i: int| false).drop_last() =~= Seq::new((n - 1) as nat, |i: int| false));
        lemma_count_false_all_false(n - 1);
    }
}

/// A corridor whose ends are areas of the partition.
pub open spec fn aisle_ok(a: Aisle, n: int) -> bool {
    a.from < n && a.to < n
}

/// The corridor joins two areas that are linked: `to` is a neighbour of `from` on the
/// corridor's side.
pub open spec fn linked(areas: Seq<Area>, a: Aisle) -> bool {
    a.from < areas.len() && a.to < areas.len() && side_of(areas[a.from as int].link, a.link_type).contains(a.to)
}

/// The cells of a list of corridors, one after the other.
pub open spec fn aisle_cells(areas: Seq<Area>, aisles: Seq<Aisle>) -> Seq<Point>
    decreases aisles.len(),
{
    if aisles.len() == 0 {
        seq![]
    } else {
        let a = aisles.last();
        aisle_cells(areas, aisles.drop_last()) + aisle_points(
            areas[a.from as int].room,
            areas[a.to as int].room,
            a.link_type,
        )
    }
}

/// Whether `v` holds `a`.
fn contains_aisle(v: &Vec<Aisle>, a: &Aisle) -> (b: bool)
    ensures
        b == v@.contains(*a),
{
    let mut i: usize = 0;
    while i < v.len()
        invariant
            i <= v@.len(),
            forall|j: int| 0 <= j < i ==> v@[j] != *a,
        decreases v@.len() - i,
    {
        if v[i] == *a {
            proof {
                assert(v@[i as int] == *a);
            }
            return true;
        }
        i = i + 1;
    }
    false
}

/// Corridor `a` joins areas `p` and `q`, one way or the other.
pub open spec fn joins(a: Aisle, p: usize, q: usize) -> bool {
    (a.from == p && a.to == q) || (a.from == q && a.to == p)
}

/// Step `s` of `path` follows one of the corridors.
pub open spec fn aisle_step(aisles: Seq<Aisle>, path: Seq<usize>, s: int) -> bool {
    exists|k: int| 0 <= k < aisles.len() && #[trigger] joins(aisles[k], path[s], path[s + 1])
}

/// `path` starts at area 0 and walks along corridors.
pub open spec fn aisle_path(aisles: Seq<Aisle>, path: Seq<usize>) -> bool {
    &&& path.len() >= 1
    &&& path[0] == 0
    &&& forall|s: int| 0 <= s < path.len() - 1 ==> #[trigger] aisle_step(aisles, path, s)
}

/// Area `i` can be reached from area 0 along corridors.
pub open spec fn aisle_reach(aisles: Seq<Aisle>, i: int) -> bool {
    exists|path: Seq<usize>| #[trigger] aisle_path(aisles, path) && path.last() == i
}

/// Area `q` is a neighbour of area `p` on some side.
pub open spec fn link_step(areas: Seq<Area>, p: usize, q: usize) -> bool {
    let l = areas[p as int].link;
    l.up@.contains(q) || l.down@.contains(q) || l.left@.contains(q) || l.right@.contains(q)
}

/// Step `s` of `path` goes to a neighbour.
pub open spec fn link_path_step(areas: Seq<Area>, path: Seq<usize>, s: int) -> bool {
    link_step(areas, path[s], path[s + 1])
}

/// `path` starts at area 0 and walks from neighbour to neighbour among the areas.
pub open spec fn link_path(areas: Seq<Area>, path: Seq<usize>) -> bool {
    &&& path.len() >= 1
    &&& path[0] == 0
    &&& forall|s: int| 0 <= s < path.len() ==> #[trigger] path[s] < areas.len()
    &&& forall|s: int| 0 <= s < path.len() - 1 ==> #[trigger] link_path_step(areas, path, s)
}

/// Area `i` can be reached from area 0 through the links.
pub open spec fn link_reach(areas: Seq<Area>, i: int) -> bool {
    exists|path: Seq<usize>| #[trigger] link_path(areas, path) && path.last() == i
}

/// Every area can be reached from area 0 through the links.
pub open spec fn links_reach_all(areas: Seq<Area>) -> bool {
    forall|i: int| 0 <= i < areas.len() ==> #[trigger] link_reach(areas, i)
}

/// Every area of `ids` is flagged.
pub open spec fn side_flagged(ids: Seq<usize>, flags: Seq<bool>) -> bool {
    forall|j: int| 0 <= j < ids.len() ==> flags[#[trigger] ids[j] as int]
}

/// Every neighbour of area `p` is flagged.
pub open spec fn closed_at(areas: Seq<Area>, flags: Seq<bool>, p: int) -> bool {
    let l = areas[p].link;
    side_flagged(l.up@, flags) && side_flagged(l.down@, flags) && side_flagged(l.left@, flags) && side_flagged(
        l.right@,
        flags,
    )
}

proof fn lemma_aisle_path_grow(aisles: Seq<Aisle>, a: Aisle, path: Seq<usize>)
    requires
        aisle_path(aisles, path),
    ensures
        aisle_path(aisles.push(a), path),
{
    assert forall|s: int| 0 <= s < path.len() - 1 implies #[trigger] aisle_step(aisles.push(a), path, s) by {
        assert(aisle_step(aisles, path, s));
        let k = choose|k: int| 0 <= k < aisles.len() && #[trigger] joins(aisles[k], path[s], path[s + 1]);
        assert(aisles.push(a)[k] == aisles[k]);
        assert(joins(aisles.push(a)[k], path[s], path[s + 1]));
    }
}

proof fn lemma_reach_grow(aisles: Seq<Aisle>, a: Aisle)
    ensures
        forall|i: int| aisle_reach(aisles, i) ==> #[trigger] aisle_reach(aisles.push(a), i),
{
    assert forall|i: int| aisle_reach(aisles, i) implies #[trigger] aisle_reach(aisles.push(a), i) by {
        let path = choose|path: Seq<usize>| #[trigger] aisle_path(aisles, path) && path.last() == i;
        lemma_aisle_path_grow(aisles, a, path);
    }
}

proof fn lemma_reach_extend(aisles: Seq<Aisle>, c: Aisle)
    requires
        aisle_reach(aisles, c.from as int),
    ensures
        aisle_reach(aisles.push(c), c.to as int),
{
    let path = choose|path: Seq<usize>| #[trigger] aisle_path(aisles, path) && path.last() == c.from;
    lemma_aisle_path_grow(aisles, c, path);
    let a2 = aisles.push(c);
    let p2 = path.push(c.to);
    assert forall|s: int| 0 <= s < p2.len() - 1 implies #[trigger] aisle_step(a2, p2, s) by {
        if s < path.len() - 1 {
            assert(aisle_step(a2, path, s));
            assert(p2[s] == path[s] && p2[s + 1] == path[s + 1]);
        } else {
            assert(p2[s] == c.from && p2[s + 1] == c.to);
            assert(joins(a2[aisles.len() as int], p2[s], p2[s + 1]));
        }
    }
    assert(aisle_path(a2, p2));
}

proof fn lemma_path_leaves(areas: Seq<Area>, flags: Seq<bool>, path: Seq<usize>)
    requires
        link_path(areas, path),
        flags.len() == areas.len(),
        flags[0],
        forall|p: int| 0 <= p < areas.len() && flags[p] ==> #[trigger] closed_at(areas, flags, p),
    ensures
        flags[path.last() as int],
    decreases path.len(),
{
    if path.len() > 1 {
        let q = path.drop_last();
        assert forall|s: int| 0 <= s < q.len() - 1 implies #[trigger] link_path_step(areas, q, s) by {
            assert(link_path_step(areas, path, s));
        }
        assert forall|s: int| 0 <= s < q.len() implies #[trigger] q[s] < areas.len() by {
            assert(path[s] < areas.len());
        }
        lemma_path_leaves(areas, flags, q);
        let s = path.len() - 2;
        assert(link_path_step(areas, path, s));
        assert(path[s] < areas.len());
        assert(closed_at(areas, flags, path[s] as int));
        let l = areas[path[s] as int].link;
        let t = path.last();
        if l.up@.contains(t) {
            let j = choose|j: int| 0 <= j < l.up@.len() && l.up@[j] == t;
            assert(flags[l.up@[j] as int]);
        } else if l.down@.contains(t) {
            let j = choose|j: int| 0 <= j < l.down@.len() && l.down@[j] == t;
            assert(flags[l.down@[j] as int]);
        } else if l.left@.contains(t) {
            let j = choose|j: int| 0 <= j < l.left@.len() && l.left@[j] == t;
            assert(flags[l.left@[j] as int]);
        } else {
            let j = choose|j: int| 0 <= j < l.right@.len() && l.right@[j] == t;
            assert(flags[l.right@[j] as int]);
        }
    }
}

/// The corridors from area `from` to each area of `ids`, in order, on side `side`, whose
/// flag is not set.
pub open spec fn open_of(from: usize, ids: Seq<usize>, side: LinkType, flags: Seq<bool>) -> Seq<Aisle>
    decreases ids.len(),
{
    if ids.len() == 0 {
        seq![]
    } else {
        let prev = open_of(from, ids.drop_last(), side, flags);
        if flags[ids.last() as int] {
            prev
        } else {
            prev.push(Aisle { from, to: ids.last(), link_type: side })
        }
    }
}

/// Appends the corridors from area `from` to each area of `ids` on side `side` whose flag
/// is not set.
fn push_aisles(
    out: &mut Vec<Aisle>,
    from: usize,
    ids: &Vec<usize>,
    side: LinkType,
    flags: &Vec<bool>,
    n: usize,
    Ghost(areas): Ghost<Seq<Area>>,
)
    requires
        from < n,
        n == areas.len(),
        ids@ == side_of(areas[from as int].link, side),
        flags@.len() == n,
        ids_below(ids@, n as int),
        flags@[from as int],
        forall|k: int| 0 <= k < old(out)@.len() ==> aisle_ok(#[trigger] old(out)@[k], n as int) && !flags@[old(out)@[k].to as int]
            && flags@[old(out)@[k].from as int] && linked(areas, old(out)@[k]),
    ensures
        forall|k: int| 0 <= k < final(out)@.len() ==> aisle_ok(#[trigger] final(out)@[k], n as int) && !flags@[final(out)@[k].to as int]
            && flags@[final(out)@[k].from as int] && linked(areas, final(out)@[k]),
        final(out)@.len() >= old(out)@.len(),
        final(out)@.len() == old(out)@.len() ==> side_flagged(ids@, flags@),
        final(out)@ == old(out)@ + open_of(from, ids@, side, flags@),
{
    let ghost o0 = out@;
    let mut k: usize = 0;
    proof {
        assert(ids@.take(0) =~= Seq::<usize>::empty());
        assert(out@ =~= o0 + open_of(from, ids@.take(0), side, flags@));
    }
    while k < ids.len()
        invariant
            from < n,
            n == areas.len(),
            ids@ == side_of(areas[from as int].link, side),
            flags@.len() == n,
            ids_below(ids@, n as int),
            k <= ids@.len(),
            flags@[from as int],
            forall|q: int| 0 <= q < out@.len() ==> aisle_ok(#[trigger] out@[q], n as int) && !flags@[out@[q].to as int]
                && flags@[out@[q].from as int] && linked(areas, out@[q]),
            out@.len() >= old(out)@.len(),
            out@.len() == old(out)@.len() ==> forall|j: int| 0 <= j < k ==> flags@[#[trigger] ids@[j] as int],
            o0 == old(out)@,
            out@ == o0 + open_of(from, ids@.take(k as int), side, flags@),
        decreases ids@.len() - k,
    {
        proof {
            assert(ids@.contains(ids@[k as int]));
        }
        let ghost r1 = out@;
        let i = ids[k];
        if !flags[i] {
            out.push(Aisle::new(from, i, side));
        }
        proof {
            let tk1 = ids@.take(k + 1);
            assert(tk1.drop_last() =~= ids@.take(k as int));
            assert(tk1.last() == i);
            if flags@[i as int] {
                assert(out@ == r1);
            } else {
                assert(out@ =~= r1.push(Aisle { from, to: i, link_type: side }));
            }
            assert(out@ =~= o0 + open_of(from, tk1, side, flags@));
        }
        k = k + 1;
    }
    proof {
        assert(ids@.take(ids@.len() as int) =~= ids@);
    }
}

/// The corridors from area `from` to each area of `ids`, in order, on side `side`, that
/// `taken` does not hold.
pub open spec fn rest_of(from: usize, ids: Seq<usize>, side: LinkType, taken: Seq<Aisle>) -> Seq<Aisle>
    decreases ids.len(),
{
    if ids.len() == 0 {
        seq![]
    } else {
        let prev = rest_of(from, ids.drop_last(), side, taken);
        let a = Aisle { from, to: ids.last(), link_type: side };
        if taken.contains(a) {
            prev
        } else {
            prev.push(a)
        }
    }
}

/// Appends the corridors from area `from` to each area of `ids` on side `side` that `taken`
/// does not hold yet.
fn push_rest(
    rest: &mut Vec<Aisle>,
    from: usize,
    ids: &Vec<usize>,
    side: LinkType,
    taken: &Vec<Aisle>,
    n: usize,
    Ghost(areas): Ghost<Seq<Area>>,
)
    requires
        from < n,
        n == areas.len(),
        ids@ == side_of(areas[from as int].link, side),
        ids_below(ids@, n as int),
        forall|k: int| 0 <= k < old(rest)@.len() ==> aisle_ok(#[trigger] old(rest)@[k], n as int) && linked(areas, old(rest)@[k]),
    ensures
        final(rest)@ == old(rest)@ + rest_of(from, ids@, side, taken@),
        forall|k: int| 0 <= k < final(rest)@.len() ==> aisle_ok(#[trigger] final(rest)@[k], n as int) && linked(areas, final(rest)@[k]),
{
    let ghost r0 = rest@;
    let mut k: usize = 0;
    proof {
        assert(ids@.take(0) =~= Seq::<usize>::empty());
        assert(rest@ =~= r0 + rest_of(from, ids@.take(0), side, taken@));
    }
    while k < ids.len()
        invariant
            from < n,
            n == areas.len(),
            ids@ == side_of(areas[from as int].link, side),
            ids_below(ids@, n as int),
            k <= ids@.len(),
            r0 == old(rest)@,
            rest@ == r0 + rest_of(from, ids@.take(k as int), side, taken@),
            forall|q: int| 0 <= q < rest@.len() ==> aisle_ok(#[trigger] rest@[q], n as int) && linked(areas, rest@[q]),
        decreases ids@.len() - k,
    {
        proof {
            assert(ids@.contains(ids@[k as int]));
        }
        let ghost r1 = rest@;
        let a = Aisle::new(from, ids[k], side);
        if !contains_aisle(taken, &a) {
            rest.push(a);
        }
        proof {
            let tk1 = ids@.take(k + 1);
            assert(tk1.drop_last() =~= ids@.take(k as int));
            assert(tk1.last() == ids@[k as int]);
            if taken@.contains(a) {
                assert(rest@ == r1);
            } else {
                assert(rest@ =~= r1.push(a));
                assert(rest@ =~= r0 + rest_of(from, tk1, side, taken@));
            }
        }
        k = k + 1;
    }
    proof {
        assert(ids@.take(ids@.len() as int) =~= ids@);
    }
}

/// The corridor cells of the dungeon: first a random spanning tree over the linked areas,
/// grown from area 0 one random corridor at a time, then up to five more random corridors
/// among the remaining links. The corridors join every area to area 0.
pub fn create_aisles(areas: &Vec<Area>) -> (v: Vec<Point>)
    requires
        areas_ok(areas@),
        forall|i: int| 0 <= i < areas@.len() ==> room_ok(#[trigger] areas@[i]),
        links_reach_all(areas@),
    ensures
        forall|i: int| 0 <= i < v@.len() ==> (#[trigger] v@[i]).x <= MAP_WIDTH && v@[i].y <= MAP_HEIGHT,
        corridors_of(areas@, v@),
{
    let n = areas.len();
    let mut aisles: Vec<Aisle> = Vec::new();
    let mut connected_flgs = vec![false; n];
    proof {
        assert(connected_flgs@ =~= Seq::new(n as nat, |i: int| false));
        lemma_count_false_all_false(n as int);
    }
    connected_flgs.set(0, true);
    proof {
        lemma_count_false_set(Seq::new(n as nat, |i: int| false), 0);
        assert(connected_flgs@ =~= Seq::new(n as nat, |i: int| false).update(0, true));
    }
    let mut remaining: usize = n - 1;
    proof {
        assert(aisle_path(aisles@, seq![0usize]));
    }

    while remaining > 0
        invariant
            areas_ok(areas@),
            n == areas@.len(),
            connected_flgs@.len() == n,
            connected_flgs@[0],
            remaining == count_false(connected_flgs@),
            forall|k: int| 0 <= k < aisles@.len() ==> aisle_ok(#[trigger] aisles@[k], n as int) && linked(areas@, aisles@[k]),
            forall|i: int| 0 <= i < n && connected_flgs@[i] ==> #[trigger] aisle_reach(aisles@, i),
            links_reach_all(areas@),
            aisles@.len() + remaining == n - 1,
        decreases remaining,
    {
        let mut candidates: Vec<Aisle> = Vec::new();
        let mut idx: usize = 0;
        while idx < n
            invariant
                areas_ok(areas@),
                n == areas@.len(),
                connected_flgs@.len() == n,
                idx <= n,
                forall|k: int| 0 <= k < candidates@.len() ==> aisle_ok(#[trigger] candidates@[k], n as int)
                    && !connected_flgs@[candidates@[k].to as int] && connected_flgs@[candidates@[k].from as int]
                    && linked(areas@, candidates@[k]),
                candidates@.len() == 0 ==> forall|p: int|
                    0 <= p < idx && connected_flgs@[p] ==> #[trigger] closed_at(areas@, connected_flgs@, p),
            decreases n - idx,
        {
            if connected_flgs[idx] {
                proof {
                    assert(area_ok(areas@[idx as int], n as int));
                }
                let ghost c0 = candidates@.len();
                push_aisles(&mut candidates, idx, &areas[idx].link.up, LinkType::Up, &connected_flgs, n, Ghost(areas@));
                let ghost c1 = candidates@.len();
                push_aisles(&mut candidates, idx, &areas[idx].link.down, LinkType::Down, &connected_flgs, n, Ghost(areas@));
                let ghost c2 = candidates@.len();
                push_aisles(&mut candidates, idx, &areas[idx].link.left, LinkType::Left, &connected_flgs, n, Ghost(areas@));
                let ghost c3 = candidates@.len();
                push_aisles(&mut candidates, idx, &areas[idx].link.right, LinkType::Right, &connected_flgs, n, Ghost(areas@));
                proof {
                    if candidates@.len() == 0 {
                        assert(c0 == 0 && c1 == 0 && c2 == 0 && c3 == 0);
                        assert(closed_at(areas@, connected_flgs@, idx as int));
                    }
                }
            }
            idx = idx + 1;
        }
        proof {
            if candidates@.len() == 0 {
                // No flagged area has an unflagged neighbour, so every area that the links
                // reach from area 0 is flagged, and none is left.
                assert forall|i: int| 0 <= i < n implies #[trigger] connected_flgs@[i] by {
                    assert(link_reach(areas@, i));
                    let path = choose|path: Seq<usize>| #[trigger] link_path(areas@, path) && path.last() == i;
                    lemma_path_leaves(areas@, connected_flgs@, path);
                }
                lemma_count_false_all_true(connected_flgs@);
            }
        }
        let c = candidates[random_below(candidates.len())];
        let ghost f0 = connected_flgs@;
        let ghost a0 = aisles@;
        proof {
            lemma_count_false_set(connected_flgs@, c.to as int);
            lemma_reach_grow(aisles@, c);
            lemma_reach_extend(aisles@, c);
        }
        connected_flgs.set(c.to, true);
        remaining = remaining - 1;
        aisles.push(c);
        proof {
            assert forall|i: int| 0 <= i < n && connected_flgs@[i] implies #[trigger] aisle_reach(aisles@, i) by {
                if i != c.to {
                    assert(f0[i]);
                    assert(aisle_reach(a0, i));
                }
            }
        }
    }
    proof {
        lemma_count_false_zero(connected_flgs@);
        assert forall|i: int| 0 <= i < n implies #[trigger] aisle_reach(aisles@, i) by {
            assert(connected_flgs@[i]);
        }
    }

    let mut rest: Vec<Aisle> = Vec::new();
    let mut k: usize = 0;
    while k < n
        invariant
            areas_ok(areas@),
            n == areas@.len(),
            k <= n,
            forall|q: int| 0 <= q < rest@.len() ==> aisle_ok(#[trigger] rest@[q], n as int) && linked(areas@, rest@[q]),
            forall|q: int| 0 <= q < aisles@.len() ==> aisle_ok(#[trigger] aisles@[q], n as int) && linked(areas@, aisles@[q]),
            forall|i: int| 0 <= i < n ==> #[trigger] aisle_reach(aisles@, i),
            aisles@.len() == n - 1,
        decreases n - k,
    {
        proof {
            assert(area_ok(areas@[k as int], n as int));
        }
        let from = areas[k].idx;
        push_rest(&mut rest, from, &areas[k].link.up, LinkType::Up, &aisles, n, Ghost(areas@));
        push_rest(&mut rest, from, &areas[k].link.down, LinkType::Down, &aisles, n, Ghost(areas@));
        push_rest(&mut rest, from, &areas[k].link.left, LinkType::Left, &aisles, n, Ghost(areas@));
        push_rest(&mut rest, from, &areas[k].link.right, LinkType::Right, &aisles, n, Ghost(areas@));
        k = k + 1;
    }

    if rest.len() > 0 {
        let bound = if rest.len() < 6 { rest.len() } else { 6 };
        let mut count = random_below(bound);
        // The indices of `rest` not drawn yet.
        let mut pool: Vec<usize> = Vec::new();
        let mut q: usize = 0;
        while q < rest.len()
            invariant
                q <= rest@.len(),
                pool@.len() == q,
                forall|j: int| 0 <= j < pool@.len() ==> #[trigger] pool@[j] < rest@.len(),
            decreases rest@.len() - q,
        {
            pool.push(q);
            q = q + 1;
        }
        while count > 0
            invariant
                count < bound <= rest@.len(),
                count <= pool@.len(),
                forall|j: int| 0 <= j < pool@.len() ==> #[trigger] pool@[j] < rest@.len(),
                forall|q: int| 0 <= q < rest@.len() ==> aisle_ok(#[trigger] rest@[q], n as int) && linked(areas@, rest@[q]),
                forall|k: int| 0 <= k < aisles@.len() ==> aisle_ok(#[trigger] aisles@[k], n as int) && linked(areas@, aisles@[k]),
                forall|i: int| 0 <= i < n ==> #[trigger] aisle_reach(aisles@, i),
                n - 1 <= aisles@.len(),
                aisles@.len() + count <= n + 4,
            decreases count,
        {
            let j = random_below(pool.len());
            let ghost p0 = pool@;
            let ghost a0 = aisles@;
            let i = pool.remove(j);
            proof {
                assert forall|jj: int| 0 <= jj < pool@.len() implies #[trigger] pool@[jj] < rest@.len() by {
                    if jj < j {
                        assert(pool@[jj] == p0[jj]);
                    } else {
                        assert(pool@[jj] == p0[jj + 1]);
                    }
                }
            }
            proof {
                lemma_reach_grow(aisles@, rest@[i as int]);
            }
            aisles.push(rest[i]);
            count = count - 1;
        }
    }

    let mut v: Vec<Point> = Vec::new();
    let mut k: usize = 0;
    while k < aisles.len()
        invariant
            areas_ok(areas@),
            n == areas@.len(),
            forall|i: int| 0 <= i < areas@.len() ==> room_ok(#[trigger] areas@[i]),
            forall|q: int| 0 <= q < aisles@.len() ==> aisle_ok(#[trigger] aisles@[q], n as int) && linked(areas@, aisles@[q]),
            forall|i: int| 0 <= i < n ==> #[trigger] aisle_reach(aisles@, i),
            n - 1 <= aisles@.len() <= n + 4,
            k <= aisles@.len(),
            forall|i: int| 0 <= i < v@.len() ==> (#[trigger] v@[i]).x <= MAP_WIDTH && v@[i].y <= MAP_HEIGHT,
            v@ == aisle_cells(areas@, aisles@.take(k as int)),
        decreases aisles@.len() - k,
    {
        let a = aisles[k];
        proof {
            assert(aisle_ok(aisles@[k as int], n as int));
            assert(area_ok(areas@[a.from as int], n as int) && room_ok(areas@[a.from as int]));
            assert(area_ok(areas@[a.to as int], n as int) && room_ok(areas@[a.to as int]));
        }
        let mut pts = create_aisle_points(&areas[a.from].room, &areas[a.to].room, a.link_type);
        let ghost v0 = v@;
        let ghost p0 = pts@;
        v.append(&mut pts);
        proof {
            assert(aisles@.take(k + 1).drop_last() =~= aisles@.take(k as int));
            assert(v@ =~= v0 + p0);
            assert(v@ == aisle_cells(areas@, aisles@.take(k + 1)));
            assert forall|i: int| 0 <= i < v@.len() implies (#[trigger] v@[i]).x <= MAP_WIDTH && v@[i].y <= MAP_HEIGHT by {
                if i < v0.len() {
                    assert(v@[i] == v0[i]);
                }
            }
        }
        k = k + 1;
    }
    proof {
        assert(aisles@.take(aisles@.len() as int) =~= aisles@);
        assert(forall|q: int| 0 <= q < aisles@.len() ==> #[trigger] linked(areas@, aisles@[q]));
    }
    v
}

/// Cell `(x, y)` lies in room `r`.
pub open spec fn in_room(r: Room, x: int, y: int) -> bool {
    r.x <= x < r.x + r.w && r.y <= y < r.y + r.h
}

/// Point `p` is the cell `(x, y)`.
pub open spec fn at_cell(p: Point, x: int, y: int) -> bool {
    p.x == x && p.y == y
}

/// One of the first `n` corridor cells is `(x, y)`.
pub open spec fn on_aisle_upto(cells: Seq<Point>, n: int, x: int, y: int) -> bool {
    exists|j: int| 0 <= j < n && #[trigger] at_cell(cells[j], x, y)
}

/// One of the corridor cells is `(x, y)`.
pub open spec fn on_aisle(cells: Seq<Point>, x: int, y: int) -> bool {
    on_aisle_upto(cells, cells.len() as int, x, y)
}

/// `cells` are the cells of a list of corridors, each between two linked areas, that join
/// every area to area 0: as many as a spanning tree needs, and at most five more.
pub open spec fn corridors_of(areas: Seq<Area>, cells: Seq<Point>) -> bool {
    exists|aisles: Seq<Aisle>|
        {
            &&& forall|k: int| 0 <= k < aisles.len() ==> #[trigger] linked(areas, aisles[k])
            &&& cells == aisle_cells(areas, aisles)
            &&& forall|i: int| 0 <= i < areas.len() ==> #[trigger] aisle_reach(aisles, i)
            &&& areas.len() - 1 <= aisles.len() <= areas.len() + 4
        }
}

/// Cell `(x, y)` is the exit of the map.
pub open spec fn is_exit_cell(map: GameMap, x: int, y: int) -> bool {
    x == map.exit_pos.x && y == map.exit_pos.y
}

/// The cells of the rooms of the first `k` areas are floors of their area, and every other
/// cell is a wall.
spec fn rooms_drawn(map: GameMap, areas: Seq<Area>, k: int) -> bool {
    &&& forall|i: int, x: int, y: int|
        0 <= i < k && #[trigger] in_room(areas[i].room, x, y) ==> map.terrain(x, y) == (Terrain::Floor {
            room_id: i as u8,
        })
    &&& forall|x: int, y: int|
        map.in_bounds(x, y) && (forall|i: int| 0 <= i < k ==> !#[trigger] in_room(areas[i].room, x, y))
            ==> #[trigger] map.terrain(x, y) == Terrain::Wall
}

/// The first `n` corridor cells are drawn over the rooms of all areas.
spec fn aisles_drawn(map: GameMap, areas: Seq<Area>, cells: Seq<Point>, n: int) -> bool {
    &&& forall|x: int, y: int|
        map.in_bounds(x, y) && on_aisle_upto(cells, n, x, y) ==> #[trigger] map.terrain(x, y) == Terrain::Aisle
    &&& forall|i: int, x: int, y: int|
        0 <= i < areas.len() && #[trigger] in_room(areas[i].room, x, y) && !on_aisle_upto(cells, n, x, y)
            ==> map.terrain(x, y) == (Terrain::Floor { room_id: i as u8 })
    &&& forall|x: int, y: int|
        map.in_bounds(x, y) && !on_aisle_upto(cells, n, x, y) && (forall|i: int|
            0 <= i < areas.len() ==> !#[trigger] in_room(areas[i].room, x, y)) ==> #[trigger] map.terrain(x, y)
            == Terrain::Wall
}

/// The map draws the rooms of `areas` on walls, each room cell a floor of its area, then
/// the corridor cells `cells`, then the exit.
pub open spec fn draws(map: GameMap, areas: Seq<Area>, cells: Seq<Point>) -> bool {
    &&& map.spec_is_exit(map.exit_pos)
    &&& forall|x: int, y: int|
        map.in_bounds(x, y) && !is_exit_cell(map, x, y) && on_aisle(cells, x, y) ==> #[trigger] map.terrain(x, y)
            == Terrain::Aisle
    &&& forall|i: int, x: int, y: int|
        0 <= i < areas.len() && #[trigger] in_room(areas[i].room, x, y) && !is_exit_cell(map, x, y) && !on_aisle(
            cells,
            x,
            y,
        ) ==> map.terrain(x, y) == (Terrain::Floor { room_id: i as u8 })
    &&& forall|x: int, y: int|
        map.in_bounds(x, y) && !is_exit_cell(map, x, y) && !on_aisle(cells, x, y) && (forall|i: int|
            0 <= i < areas.len() ==> !#[trigger] in_room(areas[i].room, x, y)) ==> #[trigger] map.terrain(x, y)
            == Terrain::Wall
}

/// A dungeon floor laid out from a partition of ten areas: the areas tile the map with a room in each,
/// the corridors join linked areas, the exit lies in a room, and the map draws them.
pub open spec fn dungeon_layout(map: GameMap, areas: Seq<Area>, cells: Seq<Point>) -> bool {
    &&& areas.len() == CUT_TRIAL + 1
    &&& areas_ok(areas)
    &&& tiles(areas)
    &&& links_wf(areas)
    &&& forall|i: int| 0 <= i < areas.len() ==> room_ok(#[trigger] areas[i])
    &&& corridors_of(areas, cells)
    &&& exists|i: int|
        0 <= i < areas.len() && #[trigger] in_room(areas[i].room, map.exit_pos.x as int, map.exit_pos.y as int)
    &&& draws(map, areas, cells)
}

/// Two distinct cells of the map open a corridor from room `a` to room `b` that lies at
/// least two cells after it: those of its first and second steps.
proof fn lemma_corridor_two_cells(a: Room, b: Room, down: bool) -> (ij: (int, int))
    requires
        !down ==> a.x + a.w + 2 <= b.x && b.x <= MAP_WIDTH && 1 <= a.h && a.y + a.h <= MAP_HEIGHT && 1 <= b.h
            && b.y + b.h <= MAP_HEIGHT,
        down ==> a.y + a.h + 2 <= b.y && b.y <= MAP_HEIGHT && 1 <= a.w && a.x + a.w <= MAP_WIDTH && 1 <= b.w
            && b.x + b.w <= MAP_WIDTH,
    ensures
        0 <= ij.0 < ij.1 < corridor_between(a, b, down).len(),
        corridor_between(a, b, down)[ij.0] != corridor_between(a, b, down)[ij.1],
        corridor_between(a, b, down)[ij.0].x < MAP_WIDTH,
        corridor_between(a, b, down)[ij.0].y < MAP_HEIGHT,
        corridor_between(a, b, down)[ij.1].x < MAP_WIDTH,
        corridor_between(a, b, down)[ij.1].y < MAP_HEIGHT,
{
    let (first, last, s, e) = if down {
        (a.y + a.h, b.y - 1, (a.x + a.x + a.w) / 2, (b.x + b.x + b.w) / 2)
    } else {
        (a.x + a.w, b.x - 1, (a.y + a.y + a.h) / 2, (b.y + b.y + b.h) / 2)
    };
    let turn = (first + last) / 2;
    let c = corridor(down, first, last, turn, s, e);
    let rest = corridor(down, first + 1, last, turn, s, e);
    let s0 = corridor_step(down, first, turn, s, e);
    let s1 = corridor_step(down, first + 1, turn, s, e);
    assert(c == s0 + rest);
    assert(rest == s1 + corridor(down, first + 2, last, turn, s, e));
    let lo = if s < e { s } else { e };
    assert(s0.len() >= 1 && s1.len() >= 1);
    assert(s0[0] == along(down, first, if first < turn { s } else if first == turn { lo } else { e }));
    assert(s1[0] == along(down, first + 1, if first + 1 < turn { s } else if first + 1 == turn { lo } else { e }));
    assert(c[0] == s0[0]);
    assert(c[s0.len() as int] == rest[0]);
    assert(rest[0] == s1[0]);
    (0, s0.len() as int)
}

/// A generated floor has a corridor: some cell of the map is an aisle.
pub proof fn law_floor_has_aisle(map: GameMap, areas: Seq<Area>, cells: Seq<Point>)
    requires
        dungeon_layout(map, areas, cells),
        map.width == MAP_WIDTH,
        map.height == MAP_HEIGHT,
    ensures
        exists|x: int, y: int| map.in_bounds(x, y) && #[trigger] map.terrain(x, y) == Terrain::Aisle,
{
    let aisles = choose|aisles: Seq<Aisle>|
        {
            &&& forall|k: int| 0 <= k < aisles.len() ==> #[trigger] linked(areas, aisles[k])
            &&& cells == aisle_cells(areas, aisles)
            &&& forall|i: int| 0 <= i < areas.len() ==> #[trigger] aisle_reach(aisles, i)
            &&& areas.len() - 1 <= aisles.len() <= areas.len() + 4
        };
    let k = aisles.len() - 1;
    let a = aisles[k];
    assert(linked(areas, aisles[k]));
    let p = areas[a.from as int];
    let q = areas[a.to as int];
    assert(area_ok(p, areas.len() as int) && room_ok(p));
    assert(area_ok(q, areas.len() as int) && room_ok(q));
    assert(lists(areas, a.from as int, a.link_type, a.to));
    assert(touching(p, q, a.link_type));
    let pts = aisle_points(p.room, q.room, a.link_type);
    let (i, j) = match a.link_type {
        LinkType::Right => lemma_corridor_two_cells(p.room, q.room, false),
        LinkType::Left => lemma_corridor_two_cells(q.room, p.room, false),
        LinkType::Down => lemma_corridor_two_cells(p.room, q.room, true),
        LinkType::Up => lemma_corridor_two_cells(q.room, p.room, true),
    };
    let pre = aisle_cells(areas, aisles.drop_last());
    assert(aisles.last() == a);
    assert(cells == pre + pts);
    let c1 = cells[pre.len() + i];
    let c2 = cells[pre.len() + j];
    assert(c1 == pts[i] && c2 == pts[j]);
    assert(at_cell(cells[pre.len() + i], c1.x as int, c1.y as int));
    assert(at_cell(cells[pre.len() + j], c2.x as int, c2.y as int));
    assert(on_aisle(cells, c1.x as int, c1.y as int));
    assert(on_aisle(cells, c2.x as int, c2.y as int));
    if is_exit_cell(map, c1.x as int, c1.y as int) {
        assert(!is_exit_cell(map, c2.x as int, c2.y as int));
        assert(map.terrain(c2.x as int, c2.y as int) == Terrain::Aisle);
    } else {
        assert(map.terrain(c1.x as int, c1.y as int) == Terrain::Aisle);
    }
}

/// Draws the rooms of the areas on a map of walls.
#[verifier::rlimit(50)]
fn draw_rooms(map: &mut GameMap, areas: &Vec<Area>)
    requires
        old(map).wf(),
        old(map).width == MAP_WIDTH,
        old(map).height == MAP_HEIGHT,
        forall|x: int, y: int| old(map).in_bounds(x, y) ==> old(map).terrain(x, y) == Terrain::Wall,
        areas_ok(areas@),
        tiles(areas@),
        forall|i: int| 0 <= i < areas@.len() ==> room_ok(#[trigger] areas@[i]),
    ensures
        final(map).wf(),
        final(map).width == MAP_WIDTH,
        final(map).height == MAP_HEIGHT,
        final(map).exit_pos == old(map).exit_pos,
        rooms_drawn(*final(map), areas@, areas@.len() as int),
{
    let mut k: usize = 0;
    while k < areas.len()
        invariant
            areas_ok(areas@),
            tiles(areas@),
            forall|i: int| 0 <= i < areas@.len() ==> room_ok(#[trigger] areas@[i]),
            k <= areas@.len(),
            map.wf(),
            map.width == MAP_WIDTH,
            map.height == MAP_HEIGHT,
            map.exit_pos == old(map).exit_pos,
            rooms_drawn(*map, areas@, k as int),
        decreases areas@.len() - k,
    {
        proof {
            assert(area_ok(areas@[k as int], areas@.len() as int) && room_ok(areas@[k as int]));
            assert forall|i: int, x: int, y: int|
                0 <= i < k && #[trigger] in_room(areas@[i].room, x, y) implies !in_room(
                areas@[k as int].room,
                x,
                y,
            ) by {
                law_rooms_apart(areas@, i, k as int);
            }
        }
        let room_id = areas[k].idx as u8;
        let r = areas[k].room;
        let mut iy: usize = 0;
        while iy < r.h
            invariant
                areas_ok(areas@),
                forall|i: int| 0 <= i < areas@.len() ==> room_ok(#[trigger] areas@[i]),
                k < areas@.len(),
                r == areas@[k as int].room,
                room_id == k as u8,
                room_in_map(r),
                iy <= r.h,
                map.wf(),
                map.width == MAP_WIDTH,
                map.height == MAP_HEIGHT,
                map.exit_pos == old(map).exit_pos,
                forall|i: int, x: int, y: int|
                    0 <= i < k && #[trigger] in_room(areas@[i].room, x, y) ==> !in_room(r, x, y),
                forall|i: int, x: int, y: int|
                    0 <= i < k && #[trigger] in_room(areas@[i].room, x, y) ==> map.terrain(x, y) == (
                    Terrain::Floor { room_id: i as u8 }),
                forall|x: int, y: int|
                    in_room(r, x, y) && y < r.y + iy ==> #[trigger] map.terrain(x, y) == (Terrain::Floor {
                        room_id,
                    }),
                forall|x: int, y: int|
                    map.in_bounds(x, y) && (forall|i: int| 0 <= i < k ==> !#[trigger] in_room(areas@[i].room, x, y))
                        && !(in_room(r, x, y) && y < r.y + iy) ==> #[trigger] map.terrain(x, y) == Terrain::Wall,
            decreases r.h - iy,
        {
            let mut ix: usize = 0;
            while ix < r.w
                invariant
                    areas_ok(areas@),
                    forall|i: int| 0 <= i < areas@.len() ==> room_ok(#[trigger] areas@[i]),
                    k < areas@.len(),
                    r == areas@[k as int].room,
                    room_id == k as u8,
                    room_in_map(r),
                    iy < r.h,
                    ix <= r.w,
                    map.wf(),
                    map.width == MAP_WIDTH,
                    map.height == MAP_HEIGHT,
                    map.exit_pos == old(map).exit_pos,
                    forall|i: int, x: int, y: int|
                        0 <= i < k && #[trigger] in_room(areas@[i].room, x, y) ==> !in_room(r, x, y),
                    forall|i: int, x: int, y: int|
                        0 <= i < k && #[trigger] in_room(areas@[i].room, x, y) ==> map.terrain(x, y) == (
                        Terrain::Floor { room_id: i as u8 }),
                    forall|x: int, y: int|
                        in_room(r, x, y) && (y < r.y + iy || (y == r.y + iy && x < r.x + ix))
                            ==> #[trigger] map.terrain(x, y) == (Terrain::Floor { room_id }),
                    forall|x: int, y: int|
                        map.in_bounds(x, y) && (forall|i: int|
                            0 <= i < k ==> !#[trigger] in_room(areas@[i].room, x, y)) && !(in_room(r, x, y) && (y
                            < r.y + iy || (y == r.y + iy && x < r.x + ix))) ==> #[trigger] map.terrain(x, y)
                            == Terrain::Wall,
                decreases r.w - ix,
            {
                map.set(r.x + ix, r.y + iy, MapCell { terrain: Terrain::Floor { room_id } });
                ix = ix + 1;
            }
            iy = iy + 1;
        }
        k = k + 1;
    }
}

/// Draws the corridor cells over the rooms.
#[verifier::rlimit(50)]
fn draw_aisles(map: &mut GameMap, areas: &Vec<Area>, cells: &Vec<Point>)
    requires
        old(map).wf(),
        old(map).width == MAP_WIDTH,
        old(map).height == MAP_HEIGHT,
        areas_ok(areas@),
        forall|i: int| 0 <= i < areas@.len() ==> room_ok(#[trigger] areas@[i]),
        rooms_drawn(*old(map), areas@, areas@.len() as int),
    ensures
        final(map).wf(),
        final(map).width == old(map).width,
        final(map).height == old(map).height,
        final(map).exit_pos == old(map).exit_pos,
        aisles_drawn(*final(map), areas@, cells@, cells@.len() as int),
{
    let mut k: usize = 0;
    while k < cells.len()
        invariant
            k <= cells@.len(),
            map.wf(),
            map.width == MAP_WIDTH,
            map.height == MAP_HEIGHT,
            map.exit_pos == old(map).exit_pos,
            areas_ok(areas@),
            forall|i: int| 0 <= i < areas@.len() ==> room_ok(#[trigger] areas@[i]),
            aisles_drawn(*map, areas@, cells@, k as int),
        decreases cells@.len() - k,
    {
        let p = cells[k];
        let ghost m0 = *map;
        map.set(p.x, p.y, MapCell { terrain: Terrain::Aisle });
        proof {
            assert forall|x: int, y: int| on_aisle_upto(cells@, k + 1, x, y) && !at_cell(cells@[k as int], x, y)
                implies on_aisle_upto(cells@, k as int, x, y) by {
                let j = choose|j: int| 0 <= j < k + 1 && #[trigger] at_cell(cells@[j], x, y);
                assert(j != k);
            }
            assert forall|x: int, y: int| !on_aisle_upto(cells@, k + 1, x, y) implies !on_aisle_upto(
                cells@,
                k as int,
                x,
                y,
            ) && !at_cell(cells@[k as int], x, y) by {
                if on_aisle_upto(cells@, k as int, x, y) {
                    let j = choose|j: int| 0 <= j < k && #[trigger] at_cell(cells@[j], x, y);
                    assert(at_cell(cells@[j], x, y));
                }
                if at_cell(cells@[k as int], x, y) {
                    assert(0 <= k < k + 1);
                }
            }
            assert forall|x: int, y: int|
                map.in_bounds(x, y) && on_aisle_upto(cells@, k + 1, x, y) implies #[trigger] map.terrain(x, y)
                == Terrain::Aisle by {
                if !at_cell(cells@[k as int], x, y) {
                    assert(m0.terrain(x, y) == Terrain::Aisle);
                }
            }
            assert forall|i: int, x: int, y: int|
                0 <= i < areas@.len() && #[trigger] in_room(areas@[i].room, x, y) && !on_aisle_upto(cells@, k + 1, x, y)
                implies map.terrain(x, y) == (Terrain::Floor { room_id: i as u8 }) by {
                assert(area_ok(areas@[i], areas@.len() as int) && room_ok(areas@[i]));
                assert(map.in_bounds(x, y));
                assert(m0.terrain(x, y) == (Terrain::Floor { room_id: i as u8 }));
            }
            assert forall|x: int, y: int|
                map.in_bounds(x, y) && !on_aisle_upto(cells@, k + 1, x, y) && (forall|i: int|
                    0 <= i < areas@.len() ==> !#[trigger] in_room(areas@[i].room, x, y)) implies #[trigger] map.terrain(x, y)
                    == Terrain::Wall by {
                assert(m0.terrain(x, y) == Terrain::Wall);
            }
        }
        k = k + 1;
    }
}

/// A new dungeon floor of 100x50 cells: rooms in a random partition, corridors between
/// them, and an exit in a random room. Every cell that can be walked on can be reached
/// from the exit.
pub fn generate() -> (map: GameMap)
    ensures
        map.wf(),
        map.width == MAP_WIDTH,
        map.height == MAP_HEIGHT,
        map.in_bounds(map.exit_pos.x as int, map.exit_pos.y as int),
        map.spec_is_exit(map.exit_pos),
        exists|areas: Seq<Area>, cells: Seq<Point>| #[trigger] dungeon_layout(map, areas, cells),
        exists|x: int, y: int| map.in_bounds(x, y) && #[trigger] map.terrain(x, y) == Terrain::Aisle,
        floor_connected(map),
{
    let height = MAP_HEIGHT;
    let width = MAP_WIDTH;

    let mut areas: Vec<Area> = Vec::new();
    let mut area = Area::new();
    area.h = height;
    area.w = width;
    areas.push(area);
    proof {
        assert(holds_cell(areas@[0], 0, 0));
        assert forall|x: int, y: int| 0 <= x < MAP_WIDTH && 0 <= y < MAP_HEIGHT implies #[trigger] covered(areas@, x, y) by {
            assert(holds_cell(areas@[0], x, y));
        }
    }

    generate_rooms(&mut areas);
    let aisles = create_aisles(&areas);

    let ri = random_below(areas.len());
    proof {
        assert(area_ok(areas@[ri as int], areas@.len() as int) && room_ok(areas@[ri as int]));
    }
    let room = areas[ri].room;
    let exit_pos = Position::new(
        (room.x + random_below(room.w)) as i32,
        (room.y + random_below(room.h)) as i32,
    );
    proof {
        assert(in_room(areas@[ri as int].room, exit_pos.x as int, exit_pos.y as int));
    }

    let mut map = GameMap::new(width, height, exit_pos);
    draw_rooms(&mut map, &areas);
    draw_aisles(&mut map, &areas, &aisles);
    let ghost m0 = map;

    // Set exit
    map.set(exit_pos.x as usize, exit_pos.y as usize, MapCell { terrain: Terrain::Exit });
    proof {
        assert(m0.wf() && m0.width == MAP_WIDTH && m0.height == MAP_HEIGHT);
        assert(draws(map, areas@, aisles@));
        assert(dungeon_layout(map, areas@, aisles@));
        law_floor_has_aisle(map, areas@, aisles@);
        lemma_floor_connected(map, areas@, aisles@);
    }
    map
}
} // verus!
