use vstd::prelude::*;

use super::generator::{
    halves, same_place, link_below, link_path, link_path_step, link_reach, link_step, links_reach_all, same_geom, side_of,
    Area, CutType, LinkType, CUT_TRIAL,
};

verus! {

/// The side facing `s`.
pub open spec fn opposite(s: LinkType) -> LinkType {
    match s {
        LinkType::Up => LinkType::Down,
        LinkType::Down => LinkType::Up,
        LinkType::Left => LinkType::Right,
        LinkType::Right => LinkType::Left,
    }
}

/// Area `p` lists area `t` as its neighbour on side `s`.
pub open spec fn lists(areas: Seq<Area>, p: int, s: LinkType, t: usize) -> bool {
    side_of(areas[p].link, s).contains(t)
}

/// Area `b` lies right against side `s` of area `a`.
pub open spec fn abutting(a: Area, b: Area, s: LinkType) -> bool {
    match s {
        LinkType::Up => b.y + b.h == a.y,
        LinkType::Down => a.y + a.h == b.y,
        LinkType::Left => b.x + b.w == a.x,
        LinkType::Right => a.x + a.w == b.x,
    }
}

/// Two areas touch along side `s`: the second lies against that side of the first, and
/// their spans along it overlap, ends included.
pub open spec fn touching(a: Area, b: Area, s: LinkType) -> bool {
    &&& abutting(a, b, s)
    &&& match s {
        LinkType::Up | LinkType::Down => a.spec_is_link(&b, CutType::Vertical),
        _ => a.spec_is_link(&b, CutType::Horizontal),
    }
}

/// The links of a partition: no list repeats an area or names its own area, an area that
/// lists a neighbour on one side is listed back by it on the opposite side, and neighbours
/// touch.
pub open spec fn links_wf(areas: Seq<Area>) -> bool {
    &&& forall|p: int, s: LinkType| 0 <= p < areas.len() ==> (#[trigger] side_of(areas[p].link, s)).no_duplicates()
    &&& forall|p: int, s: LinkType, t: usize| 0 <= p < areas.len() && t == p ==> !#[trigger] lists(areas, p, s, t)
    &&& forall|p: int, s: LinkType, t: usize|
        0 <= p < areas.len() && t < areas.len() ==> (#[trigger] lists(areas, p, s, t) <==> lists(
            areas,
            t as int,
            opposite(s),
            p as usize,
        ))
    &&& forall|p: int, s: LinkType, t: usize|
        0 <= p < areas.len() && t < areas.len() && #[trigger] lists(areas, p, s, t) ==> touching(
            areas[p],
            areas[t as int],
            s,
        )
}

/// The side of the cut base on which a cut of kind `ct` puts the new area.
pub open spec fn across(ct: CutType) -> LinkType {
    match ct {
        CutType::Horizontal => LinkType::Down,
        CutType::Vertical => LinkType::Right,
    }
}

/// Side `s` runs along the cut line of a cut of kind `ct`.
pub open spec fn is_beside(ct: CutType, s: LinkType) -> bool {
    match ct {
        CutType::Horizontal => s == LinkType::Left || s == LinkType::Right,
        CutType::Vertical => s == LinkType::Up || s == LinkType::Down,
    }
}

/// The links after area `b` of `o` is cut as `ct` says, the second half becoming area
/// `o.len()`: the halves list each other across the cut; the neighbours beyond the cut move
/// to the new area; each neighbour along the cut stays with the halves that it touches.
pub open spec fn relinked(o: Seq<Area>, nw: Seq<Area>, b: int, ct: CutType) -> bool {
    let n = o.len() as int;
    let fwd = across(ct);
    let back = opposite(fwd);
    &&& nw.len() == n + 1
    &&& forall|p: int, s: LinkType| 0 <= p <= n ==> (#[trigger] side_of(nw[p].link, s)).no_duplicates()
    &&& forall|x: usize| #[trigger] lists(nw, b, back, x) <==> lists(o, b, back, x)
    &&& forall|x: usize| #[trigger] lists(nw, b, fwd, x) <==> x == n
    &&& forall|s: LinkType, x: usize|
        is_beside(ct, s) ==> (#[trigger] lists(nw, b, s, x) <==> (lists(o, b, s, x) && nw[b].spec_is_link(
            &o[x as int],
            ct,
        )))
    &&& forall|x: usize| #[trigger] lists(nw, n, back, x) <==> x == b
    &&& forall|x: usize| #[trigger] lists(nw, n, fwd, x) <==> lists(o, b, fwd, x)
    &&& forall|s: LinkType, x: usize|
        is_beside(ct, s) ==> (#[trigger] lists(nw, n, s, x) <==> (lists(o, b, s, x) && nw[n].spec_is_link(
            &o[x as int],
            ct,
        )))
    &&& forall|p: int, x: usize|
        0 <= p < n && p != b ==> (#[trigger] lists(nw, p, fwd, x) <==> lists(o, p, fwd, x))
    &&& forall|p: int, x: usize|
        0 <= p < n && p != b ==> (#[trigger] lists(nw, p, back, x) <==> if lists(o, b, fwd, p as usize) {
            (lists(o, p, back, x) && x != b) || x == n
        } else {
            lists(o, p, back, x)
        })
    &&& forall|p: int, s: LinkType, x: usize|
        0 <= p < n && p != b && is_beside(ct, s) ==> (#[trigger] lists(nw, p, s, x) <==> if lists(
            o,
            b,
            opposite(s),
            p as usize,
        ) {
            (lists(o, p, s, x) && !(x == b && !nw[b].spec_is_link(&o[p], ct))) || (x == n && nw[n].spec_is_link(
                &o[p],
                ct,
            ))
        } else {
            lists(o, p, s, x)
        })
}

/// The geometry after area `b` of `o` is cut as `ct` says.
pub open spec fn cut_geometry(o: Seq<Area>, nw: Seq<Area>, b: int, ct: CutType) -> bool {
    &&& nw.len() == o.len() + 1
    &&& 0 <= b < o.len()
    &&& halves(o[b], nw[b], nw[o.len() as int], ct)
    &&& forall|j: int| 0 <= j < o.len() && j != b ==> same_geom(#[trigger] o[j], nw[j])
}

/// No list of `o` names an area at or past `o.len()`.
pub open spec fn links_below(o: Seq<Area>) -> bool {
    forall|p: int| 0 <= p < o.len() ==> link_below(#[trigger] o[p].link, o.len() as int)
}

pub(crate) proof fn lemma_no_new(o: Seq<Area>, p: int, s: LinkType)
    requires
        links_below(o),
        0 <= p < o.len() <= CUT_TRIAL,
    ensures
        !lists(o, p, s, o.len() as usize),
{
    assert(link_below(o[p].link, o.len() as int));
    if lists(o, p, s, o.len() as usize) {
        let l = side_of(o[p].link, s);
        let k = choose|k: int| 0 <= k < l.len() && l[k] == o.len() as usize;
        assert(l[k] < o.len());
    }
}

proof fn lemma_relinked_irreflexive(o: Seq<Area>, nw: Seq<Area>, b: int, ct: CutType)
    requires
        links_wf(o),
        links_below(o),
        cut_geometry(o, nw, b, ct),
        relinked(o, nw, b, ct),
        o.len() <= CUT_TRIAL,
    ensures
        forall|p: int, s: LinkType, t: usize| 0 <= p < nw.len() && t == p ==> !#[trigger] lists(nw, p, s, t),
{
    let n = o.len() as int;
    let fwd = across(ct);
    let back = opposite(fwd);
    assert forall|p: int, s: LinkType, t: usize| 0 <= p < nw.len() && t == p implies !#[trigger] lists(nw, p, s, t) by {
        if p < n {
            lemma_no_new(o, p, s);
            assert(!lists(o, p, s, t));
        } else {
            lemma_no_new(o, b, s);
        }
    }
}

proof fn lemma_sides(ct: CutType, s: LinkType)
    ensures
        opposite(opposite(s)) == s,
        s == across(ct) || s == opposite(across(ct)) || is_beside(ct, s),
        is_beside(ct, s) ==> s != across(ct) && s != opposite(across(ct)) && is_beside(ct, opposite(s)),
        !is_beside(ct, s) ==> !is_beside(ct, opposite(s)),
{
}

proof fn lemma_beside_pair(ct: CutType, s1: LinkType, s: LinkType)
    requires
        is_beside(ct, s1),
        is_beside(ct, s),
    ensures
        s == s1 || s == opposite(s1),
{
}

proof fn lemma_relinked_mutual(o: Seq<Area>, nw: Seq<Area>, b: int, ct: CutType)
    requires
        links_wf(o),
        links_below(o),
        cut_geometry(o, nw, b, ct),
        relinked(o, nw, b, ct),
        o.len() <= CUT_TRIAL,
    ensures
        forall|p: int, s: LinkType, t: usize|
            0 <= p < nw.len() && t < nw.len() ==> (#[trigger] lists(nw, p, s, t) <==> lists(
                nw,
                t as int,
                opposite(s),
                p as usize,
            )),
{
    let n = o.len() as int;
    let fwd = across(ct);
    let back = opposite(fwd);
    lemma_relinked_irreflexive(o, nw, b, ct);
    assert forall|p: int, s: LinkType, t: usize|
        0 <= p < nw.len() && t < nw.len() implies (#[trigger] lists(nw, p, s, t) <==> lists(
            nw,
            t as int,
            opposite(s),
            p as usize,
        )) by {
        lemma_sides(ct, s);
        let q = t as int;
        let pu = p as usize;
        if p == q {
            assert(!lists(nw, p, s, t));
            assert(!lists(nw, q, opposite(s), pu));
        } else if p < n && q < n {
            lemma_no_new(o, p, s);
            lemma_no_new(o, q, opposite(s));
            assert(lists(o, p, s, t) <==> lists(o, q, opposite(s), pu));
            if p != b && q != b {
                assert(lists(nw, p, s, t) <==> lists(o, p, s, t));
                assert(lists(nw, q, opposite(s), pu) <==> lists(o, q, opposite(s), pu));
            } else if p == b {
                assert(lists(o, q, back, b as usize) <==> lists(o, b, fwd, t));
                assert(lists(o, q, fwd, b as usize) <==> lists(o, b, back, t));
            } else {
                assert(lists(o, p, back, b as usize) <==> lists(o, b, fwd, pu));
                assert(lists(o, p, fwd, b as usize) <==> lists(o, b, back, pu));
            }
        } else if p == n {
            lemma_no_new(o, q, opposite(s));
            lemma_no_new(o, b, s);
            lemma_no_new(o, b, opposite(s));
            if q == b {
                lemma_no_new(o, b, fwd);
            }
        } else {
            lemma_no_new(o, p, s);
            lemma_no_new(o, b, s);
            lemma_no_new(o, b, opposite(s));
            if p == b {
                lemma_no_new(o, b, back);
            }
        }
    }
}

proof fn lemma_relinked_touching(o: Seq<Area>, nw: Seq<Area>, b: int, ct: CutType)
    requires
        links_wf(o),
        links_below(o),
        cut_geometry(o, nw, b, ct),
        relinked(o, nw, b, ct),
        o.len() <= CUT_TRIAL,
    ensures
        forall|p: int, s: LinkType, t: usize|
            0 <= p < nw.len() && t < nw.len() && #[trigger] lists(nw, p, s, t) ==> touching(nw[p], nw[t as int], s),
{
    let n = o.len() as int;
    let fwd = across(ct);
    let back = opposite(fwd);
    assert forall|p: int, s: LinkType, t: usize|
        0 <= p < nw.len() && t < nw.len() && #[trigger] lists(nw, p, s, t) implies touching(nw[p], nw[t as int], s) by {
        lemma_sides(ct, s);
        let q = t as int;
        if p < n {
            lemma_no_new(o, p, s);
        }
        lemma_no_new(o, b, s);
        if p == b {
            if q < n {
                assert(same_geom(o[q], nw[q]) || q == b);
            }
        } else if p == n {
            if q < n && q != b {
                assert(same_geom(o[q], nw[q]));
                if s == fwd {
                    assert(touching(o[b], o[q], s));
                }
            }
        } else {
            assert(same_geom(o[p], nw[p]));
            if q < n && q != b {
                assert(same_geom(o[q], nw[q]));
                assert(lists(o, p, s, t));
                assert(touching(o[p], o[q], s));
            } else if q == b {
                if s == fwd {
                    assert(lists(o, p, s, t));
                    assert(touching(o[p], o[b], s));
                }
            } else {
                if s == back {
                    assert(lists(o, b, fwd, p as usize));
                    assert(touching(o[b], o[p], fwd));
                }
            }
        }
    }
}

/// Cutting an area keeps the links of the partition well formed.
pub proof fn lemma_relinked_wf(o: Seq<Area>, nw: Seq<Area>, b: int, ct: CutType)
    requires
        links_wf(o),
        links_below(o),
        cut_geometry(o, nw, b, ct),
        relinked(o, nw, b, ct),
        o.len() <= CUT_TRIAL,
    ensures
        links_wf(nw),
{
    lemma_relinked_irreflexive(o, nw, b, ct);
    lemma_relinked_mutual(o, nw, b, ct);
    lemma_relinked_touching(o, nw, b, ct);
}

proof fn lemma_lists_step(areas: Seq<Area>, p: int, s: LinkType, q: usize)
    requires
        lists(areas, p, s, q),
        0 <= p <= usize::MAX,
    ensures
        link_step(areas, p as usize, q),
{
}

proof fn lemma_step_lists(areas: Seq<Area>, p: usize, q: usize)
    requires
        link_step(areas, p, q),
    ensures
        exists|s: LinkType| #[trigger] lists(areas, p as int, s, q),
{
    let l = areas[p as int].link;
    if l.up@.contains(q) {
        assert(lists(areas, p as int, LinkType::Up, q));
    } else if l.down@.contains(q) {
        assert(lists(areas, p as int, LinkType::Down, q));
    } else if l.left@.contains(q) {
        assert(lists(areas, p as int, LinkType::Left, q));
    } else {
        assert(lists(areas, p as int, LinkType::Right, q));
    }
}

/// A path to `u` followed by a step from `u` reaches the step's end.
proof fn lemma_reach_step(areas: Seq<Area>, u: int, s: LinkType, v: usize)
    requires
        link_reach(areas, u),
        0 <= u < areas.len(),
        v < areas.len(),
        areas.len() <= usize::MAX,
        lists(areas, u, s, v),
    ensures
        link_reach(areas, v as int),
{
    let path = choose|path: Seq<usize>| #[trigger] link_path(areas, path) && path.last() == u;
    let p2 = path.push(v);
    lemma_lists_step(areas, u, s, v);
    assert forall|k: int| 0 <= k < p2.len() implies #[trigger] p2[k] < areas.len() by {
        if k < path.len() {
            assert(p2[k] == path[k]);
        }
    }
    assert forall|k: int| 0 <= k < p2.len() - 1 implies #[trigger] link_path_step(areas, p2, k) by {
        if k < path.len() - 1 {
            assert(link_path_step(areas, path, k));
            assert(p2[k] == path[k] && p2[k + 1] == path[k + 1]);
        } else {
            assert(p2[k] == path.last() && p2[k + 1] == v);
        }
    }
    assert(link_path(areas, p2));
}

/// An old step from `u` to `v` is still a walk in the new links, directly or through the
/// new area.
proof fn lemma_step_transfer(o: Seq<Area>, nw: Seq<Area>, b: int, ct: CutType, u: int, s: LinkType, v: usize)
    requires
        links_wf(o),
        links_below(o),
        cut_geometry(o, nw, b, ct),
        relinked(o, nw, b, ct),
        o.len() <= CUT_TRIAL,
        0 <= u < o.len(),
        v < o.len(),
        lists(o, u, s, v),
        link_reach(nw, u),
    ensures
        link_reach(nw, v as int),
{
    let n = o.len() as int;
    let a = n as usize;
    let fwd = across(ct);
    let back = opposite(fwd);
    lemma_sides(ct, s);
    let q = v as int;
    if u == b {
        if s == back {
            lemma_reach_step(nw, u, s, v);
        } else if s == fwd {
            assert(lists(nw, b, fwd, a));
            lemma_reach_step(nw, u, fwd, a);
            assert(lists(nw, n, fwd, v));
            lemma_reach_step(nw, n, fwd, v);
        } else {
            assert(touching(o[b], o[q], s));
            if nw[b].spec_is_link(&o[q], ct) {
                lemma_reach_step(nw, u, s, v);
            } else {
                assert(nw[n].spec_is_link(&o[q], ct));
                assert(lists(nw, b, fwd, a));
                lemma_reach_step(nw, u, fwd, a);
                assert(lists(nw, n, s, v));
                lemma_reach_step(nw, n, s, v);
            }
        }
    } else if q != b {
        lemma_reach_step(nw, u, s, v);
    } else {
        // a step into the cut base
        let uu = u as usize;
        assert(lists(o, b, opposite(s), uu));
        if s == fwd {
            lemma_reach_step(nw, u, s, v);
        } else if s == back {
            assert(lists(nw, u, back, a));
            lemma_reach_step(nw, u, back, a);
            assert(lists(nw, n, back, v));
            lemma_reach_step(nw, n, back, v);
        } else {
            assert(touching(o[u], o[b], s));
            if nw[b].spec_is_link(&o[u], ct) {
                lemma_reach_step(nw, u, s, v);
            } else {
                assert(nw[n].spec_is_link(&o[u], ct));
                assert(lists(nw, u, s, a));
                lemma_reach_step(nw, u, s, a);
                assert(lists(nw, n, back, v));
                lemma_reach_step(nw, n, back, v);
            }
        }
    }
}

proof fn lemma_path_transfer(o: Seq<Area>, nw: Seq<Area>, b: int, ct: CutType, path: Seq<usize>)
    requires
        links_wf(o),
        links_below(o),
        cut_geometry(o, nw, b, ct),
        relinked(o, nw, b, ct),
        o.len() <= CUT_TRIAL,
        link_path(o, path),
    ensures
        link_reach(nw, path.last() as int),
    decreases path.len(),
{
    if path.len() == 1 {
        let p0 = seq![0usize];
        assert(link_path(nw, p0));
    } else {
        let pd = path.drop_last();
        assert forall|k: int| 0 <= k < pd.len() implies #[trigger] pd[k] < o.len() by {
            assert(path[k] < o.len());
        }
        assert forall|k: int| 0 <= k < pd.len() - 1 implies #[trigger] link_path_step(o, pd, k) by {
            assert(link_path_step(o, path, k));
        }
        lemma_path_transfer(o, nw, b, ct, pd);
        let k = path.len() - 2;
        assert(link_path_step(o, path, k));
        assert(path[k] < o.len() && path.last() < o.len());
        lemma_step_lists(o, path[k], path.last());
        let s = choose|s: LinkType| #[trigger] lists(o, path[k] as int, s, path.last());
        lemma_step_transfer(o, nw, b, ct, path[k] as int, s, path.last());
    }
}

/// Cutting an area keeps every area reachable from area 0 through the links.
pub proof fn lemma_relinked_reach(o: Seq<Area>, nw: Seq<Area>, b: int, ct: CutType)
    requires
        links_wf(o),
        links_below(o),
        cut_geometry(o, nw, b, ct),
        relinked(o, nw, b, ct),
        o.len() <= CUT_TRIAL,
        links_reach_all(o),
    ensures
        links_reach_all(nw),
{
    let n = o.len() as int;
    assert forall|i: int| 0 <= i < nw.len() implies #[trigger] link_reach(nw, i) by {
        if i < n {
            assert(link_reach(o, i));
            let path = choose|path: Seq<usize>| #[trigger] link_path(o, path) && path.last() == i;
            lemma_path_transfer(o, nw, b, ct, path);
        } else {
            assert(link_reach(o, b));
            let path = choose|path: Seq<usize>| #[trigger] link_path(o, path) && path.last() == b;
            lemma_path_transfer(o, nw, b, ct, path);
            assert(lists(nw, b, across(ct), n as usize));
            lemma_reach_step(nw, b, across(ct), n as usize);
        }
    }
}

/// The link lists after relinking the neighbours of cut base `b` in three steps: the
/// neighbours beyond the cut (`a1`), then those along the cut on either side (`a2`, `a3`), with
/// the halves' own lists set last (`nw`).
pub(crate) proof fn lemma_cut_relinked(
    o: Seq<Area>,
    a1: Seq<Area>,
    a2: Seq<Area>,
    a3: Seq<Area>,
    nw: Seq<Area>,
    b: int,
    ct: CutType,
    s1: LinkType,
)
    requires
        links_wf(o),
        links_below(o),
        o.len() <= CUT_TRIAL,
        cut_geometry(o, nw, b, ct),
        is_beside(ct, s1),
        a1.len() == o.len(),
        a2.len() == o.len(),
        a3.len() == o.len(),
        forall|j: int| 0 <= j < o.len() ==> same_geom(#[trigger] a1[j], o[j]),
        forall|j: int| 0 <= j < o.len() ==> same_geom(#[trigger] a2[j], o[j]),
        // beyond the cut
        forall|j: int|
            0 <= j < o.len() && !lists(o, b, across(ct), j as usize) ==> #[trigger] a1[j] == o[j],
        forall|j: int, s: LinkType|
            0 <= j < o.len() && lists(o, b, across(ct), j as usize) && s != opposite(across(ct)) ==> #[trigger] side_of(
                a1[j].link,
                s,
            ) == side_of(o[j].link, s),
        forall|j: int|
            0 <= j < o.len() && lists(o, b, across(ct), j as usize) ==> side_of(
                (#[trigger] a1[j]).link,
                opposite(across(ct)),
            ).no_duplicates() && forall|x: usize|
                #[trigger] side_of(a1[j].link, opposite(across(ct))).contains(x) <==> ((side_of(
                    o[j].link,
                    opposite(across(ct)),
                ).contains(x) && x != b) || x == o.len()),
        // along the cut, first side
        forall|j: int|
            0 <= j < o.len() && !lists(o, b, opposite(s1), j as usize) ==> #[trigger] a2[j] == a1[j],
        forall|j: int, s: LinkType|
            0 <= j < o.len() && lists(o, b, opposite(s1), j as usize) && s != s1 ==> #[trigger] side_of(
                a2[j].link,
                s,
            ) == side_of(a1[j].link, s),
        forall|j: int|
            0 <= j < o.len() && lists(o, b, opposite(s1), j as usize) ==> side_of(
                (#[trigger] a2[j]).link,
                s1,
            ).no_duplicates() && forall|x: usize|
                #[trigger] side_of(a2[j].link, s1).contains(x) <==> ((side_of(a1[j].link, s1).contains(x) && !(x
                    == b && !nw[b].spec_is_link(&a1[j], ct))) || (x == o.len() && nw[o.len() as int].spec_is_link(
                    &a1[j],
                    ct,
                ))),
        // along the cut, other side
        forall|j: int| 0 <= j < o.len() && !lists(o, b, s1, j as usize) ==> #[trigger] a3[j] == a2[j],
        forall|j: int, s: LinkType|
            0 <= j < o.len() && lists(o, b, s1, j as usize) && s != opposite(s1) ==> #[trigger] side_of(
                a3[j].link,
                s,
            ) == side_of(a2[j].link, s),
        forall|j: int|
            0 <= j < o.len() && lists(o, b, s1, j as usize) ==> side_of(
                (#[trigger] a3[j]).link,
                opposite(s1),
            ).no_duplicates() && forall|x: usize|
                #[trigger] side_of(a3[j].link, opposite(s1)).contains(x) <==> ((side_of(
                    a2[j].link,
                    opposite(s1),
                ).contains(x) && !(x == b && !nw[b].spec_is_link(&a2[j], ct))) || (x == o.len() && nw[o.len()
                    as int].spec_is_link(&a2[j], ct))),
        // the others keep what the steps left; the halves get their own lists
        forall|j: int| 0 <= j < o.len() && j != b ==> #[trigger] nw[j] == a3[j],
        side_of(nw[b].link, opposite(across(ct))) == side_of(o[b].link, opposite(across(ct))),
        side_of(nw[b].link, across(ct)) == seq![o.len() as usize],
        side_of(nw[o.len() as int].link, opposite(across(ct))) == seq![b as usize],
        side_of(nw[o.len() as int].link, across(ct)) == side_of(o[b].link, across(ct)),
        side_of(nw[b].link, opposite(s1)).no_duplicates(),
        forall|x: usize|
            #[trigger] side_of(nw[b].link, opposite(s1)).contains(x) <==> (side_of(o[b].link, opposite(s1)).contains(
                x,
            ) && nw[b].spec_is_link(&a1[x as int], ct)),
        side_of(nw[b].link, s1).no_duplicates(),
        forall|x: usize|
            #[trigger] side_of(nw[b].link, s1).contains(x) <==> (side_of(o[b].link, s1).contains(x)
                && nw[b].spec_is_link(&a2[x as int], ct)),
        side_of(nw[o.len() as int].link, opposite(s1)).no_duplicates(),
        forall|x: usize|
            #[trigger] side_of(nw[o.len() as int].link, opposite(s1)).contains(x) <==> (side_of(
                o[b].link,
                opposite(s1),
            ).contains(x) && nw[o.len() as int].spec_is_link(&a1[x as int], ct)),
        side_of(nw[o.len() as int].link, s1).no_duplicates(),
        forall|x: usize|
            #[trigger] side_of(nw[o.len() as int].link, s1).contains(x) <==> (side_of(o[b].link, s1).contains(x)
                && nw[o.len() as int].spec_is_link(&a2[x as int], ct)),
    ensures
        relinked(o, nw, b, ct),
{
    let n = o.len() as int;
    let fwd = across(ct);
    let back = opposite(fwd);
    let s2 = opposite(s1);
    lemma_sides(ct, s1);
    assert(s1 != fwd && s1 != back && s2 != fwd && s2 != back && s1 != s2);
    assert(seq![n as usize].no_duplicates());
    assert(seq![b as usize].no_duplicates());
    assert forall|x: usize| #[trigger] seq![n as usize].contains(x) <==> x == n by {
        if x == n {
            assert(seq![n as usize][0] == x);
        }
    }
    assert forall|x: usize| #[trigger] seq![b as usize].contains(x) <==> x == b by {
        if x == b {
            assert(seq![b as usize][0] == x);
        }
    }
    // the lists of the other areas, side by side
    assert forall|p: int| 0 <= p < n && p != b implies {
        &&& #[trigger] side_of(nw[p].link, fwd) == side_of(o[p].link, fwd)
        &&& side_of(nw[p].link, back) == side_of(a1[p].link, back)
        &&& side_of(nw[p].link, s1) == side_of(a2[p].link, s1)
        &&& side_of(a2[p].link, s1) == side_of(a2[p].link, s1)
        &&& side_of(a1[p].link, s1) == side_of(o[p].link, s1)
        &&& side_of(a2[p].link, s2) == side_of(o[p].link, s2)
        &&& side_of(a1[p].link, fwd) == side_of(o[p].link, fwd)
    } by {
        assert(nw[p] == a3[p]);
        if lists(o, b, fwd, p as usize) {
            assert(side_of(a1[p].link, fwd) == side_of(o[p].link, fwd));
            assert(side_of(a1[p].link, s1) == side_of(o[p].link, s1));
            assert(side_of(a1[p].link, s2) == side_of(o[p].link, s2));
        } else {
            assert(a1[p] == o[p]);
        }
        if lists(o, b, s2, p as usize) {
            assert(side_of(a2[p].link, fwd) == side_of(a1[p].link, fwd));
            assert(side_of(a2[p].link, back) == side_of(a1[p].link, back));
            assert(side_of(a2[p].link, s2) == side_of(a1[p].link, s2));
        } else {
            assert(a2[p] == a1[p]);
        }
        if lists(o, b, s1, p as usize) {
            assert(side_of(a3[p].link, fwd) == side_of(a2[p].link, fwd));
            assert(side_of(a3[p].link, back) == side_of(a2[p].link, back));
            assert(side_of(a3[p].link, s1) == side_of(a2[p].link, s1));
        } else {
            assert(a3[p] == a2[p]);
        }
    }
    assert forall|p: int, s: LinkType| 0 <= p <= n implies (#[trigger] side_of(nw[p].link, s)).no_duplicates() by {
        lemma_sides(ct, s);
        if is_beside(ct, s) {
            lemma_beside_pair(ct, s1, s);
        }
        if p < n {
            assert(side_of(o[p].link, s).no_duplicates());
        }
        if p < n && p != b {
            assert(side_of(nw[p].link, fwd) == side_of(o[p].link, fwd));
            if s == back {
                if !lists(o, b, fwd, p as usize) {
                    assert(a1[p] == o[p]);
                }
            } else if s == s1 {
                if !lists(o, b, s2, p as usize) {
                    assert(a2[p] == a1[p]);
                }
            } else if s == s2 {
                assert(nw[p] == a3[p]);
                if !lists(o, b, s1, p as usize) {
                    assert(a3[p] == a2[p]);
                }
            }
        }
    }
    assert forall|s: LinkType, x: usize|
        is_beside(ct, s) implies (#[trigger] lists(nw, b, s, x) <==> (lists(o, b, s, x) && nw[b].spec_is_link(
            &o[x as int],
            ct,
        ))) by {
        lemma_no_new(o, b, s);
        if x < n {
            assert(same_geom(a1[x as int], o[x as int]) && same_geom(a2[x as int], o[x as int]));
        }
    }
    assert forall|s: LinkType, x: usize|
        is_beside(ct, s) implies (#[trigger] lists(nw, n, s, x) <==> (lists(o, b, s, x) && nw[n].spec_is_link(
            &o[x as int],
            ct,
        ))) by {
        lemma_no_new(o, b, s);
        if x < n {
            assert(same_geom(a1[x as int], o[x as int]) && same_geom(a2[x as int], o[x as int]));
        }
    }
    assert forall|p: int, x: usize|
        0 <= p < n && p != b implies (#[trigger] lists(nw, p, back, x) <==> if lists(o, b, fwd, p as usize) {
            (lists(o, p, back, x) && x != b) || x == n
        } else {
            lists(o, p, back, x)
        }) by {
        assert(side_of(nw[p].link, fwd) == side_of(o[p].link, fwd));
        if !lists(o, b, fwd, p as usize) {
            assert(a1[p] == o[p]);
        }
    }
    assert forall|p: int, s: LinkType, x: usize|
        0 <= p < n && p != b && is_beside(ct, s) implies (#[trigger] lists(nw, p, s, x) <==> if lists(
            o,
            b,
            opposite(s),
            p as usize,
        ) {
            (lists(o, p, s, x) && !(x == b && !nw[b].spec_is_link(&o[p], ct))) || (x == n && nw[n].spec_is_link(
                &o[p],
                ct,
            ))
        } else {
            lists(o, p, s, x)
        }) by {
        assert(side_of(nw[p].link, fwd) == side_of(o[p].link, fwd));
        assert(same_geom(a1[p], o[p]) && same_geom(a2[p], o[p]));
        lemma_sides(ct, s);
        lemma_beside_pair(ct, s1, s);
        if s == s1 {
            if !lists(o, b, s2, p as usize) {
                assert(a2[p] == a1[p]);
            }
        } else {
            assert(s == s2);
            assert(nw[p] == a3[p]);
            if !lists(o, b, s1, p as usize) {
                assert(a3[p] == a2[p]);
            }
        }
    }
}

/// Before relinking along the first side of the cut: the lists that will change hold no
/// repeat and not the new area.
pub(crate) proof fn lemma_beside_ids(o: Seq<Area>, a1: Seq<Area>, b: int, s1: LinkType, back: LinkType)
    requires
        links_wf(o),
        links_below(o),
        o.len() <= CUT_TRIAL,
        0 <= b < o.len(),
        a1.len() == o.len(),
        s1 != back,
        forall|j: int| 0 <= j < o.len() && !lists(o, b, opposite(back), j as usize) ==> #[trigger] a1[j] == o[j],
        forall|j: int, s: LinkType|
            0 <= j < o.len() && lists(o, b, opposite(back), j as usize) && s != back ==> #[trigger] side_of(
                a1[j].link,
                s,
            ) == side_of(o[j].link, s),
    ensures
        forall|q: int|
            0 <= q < side_of(o[b].link, opposite(s1)).len() ==> {
                let l = side_of(a1[#[trigger] side_of(o[b].link, opposite(s1))[q] as int].link, s1);
                l.no_duplicates() && !l.contains(o.len() as usize)
            },
{
    assert forall|q: int| 0 <= q < side_of(o[b].link, opposite(s1)).len() implies {
        let l = side_of(a1[#[trigger] side_of(o[b].link, opposite(s1))[q] as int].link, s1);
        l.no_duplicates() && !l.contains(o.len() as usize)
    } by {
        let i = side_of(o[b].link, opposite(s1))[q];
        assert(link_below(o[b].link, o.len() as int));
        assert(i < o.len());
        lemma_no_new(o, i as int, s1);
        if lists(o, b, opposite(back), i) {
            assert(side_of(a1[i as int].link, s1) == side_of(o[i as int].link, s1));
        } else {
            assert(a1[i as int] == o[i as int]);
        }
        assert(side_of(o[i as int].link, s1).no_duplicates());
    }
}

/// Before relinking along the second side of the cut.
pub(crate) proof fn lemma_beside_ids2(o: Seq<Area>, a1: Seq<Area>, a2: Seq<Area>, b: int, s1: LinkType, back: LinkType)
    requires
        links_wf(o),
        links_below(o),
        o.len() <= CUT_TRIAL,
        0 <= b < o.len(),
        a1.len() == o.len(),
        a2.len() == o.len(),
        s1 != back,
        opposite(s1) != back,
        forall|j: int| 0 <= j < o.len() && !lists(o, b, opposite(back), j as usize) ==> #[trigger] a1[j] == o[j],
        forall|j: int, s: LinkType|
            0 <= j < o.len() && lists(o, b, opposite(back), j as usize) && s != back ==> #[trigger] side_of(
                a1[j].link,
                s,
            ) == side_of(o[j].link, s),
        forall|j: int| 0 <= j < o.len() && !lists(o, b, opposite(s1), j as usize) ==> #[trigger] a2[j] == a1[j],
        forall|j: int, s: LinkType|
            0 <= j < o.len() && lists(o, b, opposite(s1), j as usize) && s != s1 ==> #[trigger] side_of(
                a2[j].link,
                s,
            ) == side_of(a1[j].link, s),
    ensures
        forall|q: int|
            0 <= q < side_of(o[b].link, s1).len() ==> {
                let l = side_of(a2[#[trigger] side_of(o[b].link, s1)[q] as int].link, opposite(s1));
                l.no_duplicates() && !l.contains(o.len() as usize)
            },
{
    assert forall|q: int| 0 <= q < side_of(o[b].link, s1).len() implies {
        let l = side_of(a2[#[trigger] side_of(o[b].link, s1)[q] as int].link, opposite(s1));
        l.no_duplicates() && !l.contains(o.len() as usize)
    } by {
        let i = side_of(o[b].link, s1)[q];
        let s2 = opposite(s1);
        assert(link_below(o[b].link, o.len() as int));
        assert(i < o.len());
        lemma_no_new(o, i as int, s2);
        assert(s2 != s1);
        if lists(o, b, opposite(back), i) {
            assert(side_of(a1[i as int].link, s2) == side_of(o[i as int].link, s2));
        } else {
            assert(a1[i as int] == o[i as int]);
        }
        if lists(o, b, opposite(s1), i) {
            assert(side_of(a2[i as int].link, s2) == side_of(a1[i as int].link, s2));
        } else {
            assert(a2[i as int] == a1[i as int]);
        }
        assert(side_of(o[i as int].link, s2).no_duplicates());
    }
}

/// Links that stay the same keep what they say.
pub(crate) proof fn lemma_same_links(a0: Seq<Area>, a1: Seq<Area>)
    requires
        a0.len() == a1.len(),
        forall|i: int| 0 <= i < a1.len() ==> (#[trigger] a1[i]).link == a0[i].link,
        forall|i: int| 0 <= i < a1.len() ==> same_place(#[trigger] a0[i], a1[i]),
    ensures
        links_wf(a0) ==> links_wf(a1),
        links_reach_all(a0) ==> links_reach_all(a1),
{
    assert forall|p: int, s: LinkType, t: usize| 0 <= p < a1.len() implies #[trigger] lists(a1, p, s, t) == lists(
        a0,
        p,
        s,
        t,
    ) by {
        assert(a1[p].link == a0[p].link);
    }
    if links_wf(a0) {
        assert forall|p: int, s: LinkType| 0 <= p < a1.len() implies (#[trigger] side_of(a1[p].link, s)).no_duplicates() by {
            assert(a1[p].link == a0[p].link);
            assert(side_of(a0[p].link, s).no_duplicates());
        }
        assert forall|p: int, s: LinkType, t: usize|
            0 <= p < a1.len() && t < a1.len() && #[trigger] lists(a1, p, s, t) implies touching(a1[p], a1[t as int], s) by {
            assert(lists(a0, p, s, t));
            assert(touching(a0[p], a0[t as int], s));
            assert(a1[p].link == a0[p].link && a1[t as int].link == a0[t as int].link);
            assert(same_place(a0[p], a1[p]) && same_place(a0[t as int], a1[t as int]));
        }
    }
    if links_reach_all(a0) {
        assert forall|i: int| 0 <= i < a1.len() implies #[trigger] link_reach(a1, i) by {
            assert(link_reach(a0, i));
            let path = choose|path: Seq<usize>| #[trigger] link_path(a0, path) && path.last() == i;
            assert forall|k: int| 0 <= k < path.len() - 1 implies #[trigger] link_path_step(a1, path, k) by {
                assert(link_path_step(a0, path, k));
                assert(path[k] < a0.len());
                assert(a1[path[k] as int].link == a0[path[k] as int].link);
            }
            assert(link_path(a1, path));
        }
    }
}

} // verus!
