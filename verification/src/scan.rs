//! The order in which the detector passes over a grid, and what that order
//! makes of the components: column by column from the left, and within a
//! column from the top down. The first pixel of a component that the scan
//! meets is its leader; regions are reported in the order of their leaders.

use vstd::prelude::*;
use crate::connectivity::{
    component, lemma_component_members, lemma_component_same_pixels, lemma_component_shared,
    lemma_component_symmetric,
};
use crate::grid::{is_background, same_pixels, Grid, Point};

verus! {

/// Whether the scan, standing at row `y` of column `x`, has already passed `p`.
pub open spec fn scanned_before(p: Point, x: int, y: int) -> bool {
    p.0 < x || (p.0 == x && p.1 < y)
}

/// A leader is a foreground pixel that the scan meets before every other
/// pixel of its component.
pub open spec fn is_leader(g: Grid, p: Point) -> bool {
    &&& g.is_foreground(p)
    &&& forall|q: Point| #[trigger] component(g, p).contains(q) ==> !scanned_before(q, p.0, p.1)
}

/// The leaders the scan has passed before row `y` of column `x`, in scan
/// order.
pub open spec fn leaders_before(g: Grid, x: int, y: int) -> Seq<Point>
    decreases x, y,
{
    if y > 0 {
        let earlier = leaders_before(g, x, y - 1);
        if is_leader(g, (x, y - 1)) {
            earlier.push((x, y - 1))
        } else {
            earlier
        }
    } else if x > 0 {
        leaders_before(g, x - 1, g.height as int)
    } else {
        Seq::empty()
    }
}

/// All leaders of the grid, in scan order.
pub open spec fn leaders(g: Grid) -> Seq<Point> {
    leaders_before(g, g.width as int, 0)
}

/// The foreground pixels whose component the scan has entered before row `y`
/// of column `x`.
pub open spec fn covered(g: Grid, x: int, y: int) -> Set<Point> {
    Set::new(
        |p: Point|
            g.is_foreground(p) && exists|q: Point| #[trigger]
                component(g, p).contains(q) && scanned_before(q, x, y),
    )
}

/// Before the scan starts nothing is covered.
pub proof fn lemma_covered_at_start(g: Grid)
    ensures
        covered(g, 0, 0) == Set::<Point>::empty(),
{
    assert forall|p: Point| !covered(g, 0, 0).contains(p) by {
        if covered(g, 0, 0).contains(p) {
            let q = choose|q: Point| #[trigger]
                component(g, p).contains(q) && scanned_before(q, 0, 0);
            lemma_component_members(g, p, q);
        }
    }
    assert(covered(g, 0, 0) =~= Set::<Point>::empty());
}

/// Finishing one column and starting the next covers nothing new.
pub proof fn lemma_covered_next_column(g: Grid, x: int)
    ensures
        covered(g, x + 1, 0) == covered(g, x, g.height as int),
{
    assert forall|p: Point| covered(g, x + 1, 0).contains(p) <==> covered(
        g,
        x,
        g.height as int,
    ).contains(p) by {
        if covered(g, x + 1, 0).contains(p) {
            let q = choose|q: Point| #[trigger]
                component(g, p).contains(q) && scanned_before(q, x + 1, 0);
            lemma_component_members(g, p, q);
            assert(scanned_before(q, x, g.height as int));
        }
        if covered(g, x, g.height as int).contains(p) {
            let q = choose|q: Point| #[trigger]
                component(g, p).contains(q) && scanned_before(q, x, g.height as int);
            lemma_component_members(g, p, q);
            assert(scanned_before(q, x + 1, 0));
        }
    }
    assert(covered(g, x + 1, 0) =~= covered(g, x, g.height as int));
}

/// Passing a pixel that is background, or whose component was entered
/// earlier, covers nothing new, and that pixel is no leader.
pub proof fn lemma_scan_passes(g: Grid, x: int, y: int)
    requires
        g.contains((x, y)),
        is_background(g.color((x, y))) || covered(g, x, y).contains((x, y)),
    ensures
        !is_leader(g, (x, y)),
        covered(g, x, y + 1) == covered(g, x, y),
        leaders_before(g, x, y + 1) == leaders_before(g, x, y),
{
    let here = (x, y);
    if !is_background(g.color(here)) {
        let first = choose|q: Point| #[trigger]
            component(g, here).contains(q) && scanned_before(q, x, y);
        assert(!is_leader(g, here));
    }
    assert forall|p: Point| covered(g, x, y + 1).contains(p) implies covered(g, x, y).contains(
        p,
    ) by {
        let q = choose|q: Point| #[trigger]
            component(g, p).contains(q) && scanned_before(q, x, y + 1);
        if !scanned_before(q, x, y) {
            assert(q == here);
            lemma_component_members(g, p, q);
            lemma_component_shared(g, p, here);
            let first = choose|q: Point| #[trigger]
                component(g, here).contains(q) && scanned_before(q, x, y);
            assert(component(g, p).contains(first));
        }
    }
    assert forall|p: Point| covered(g, x, y).contains(p) implies covered(g, x, y + 1).contains(
        p,
    ) by {
        let q = choose|q: Point| #[trigger] component(g, p).contains(q) && scanned_before(q, x, y);
        assert(scanned_before(q, x, y + 1));
    }
    assert(covered(g, x, y + 1) =~= covered(g, x, y));
}

/// Meeting a foreground pixel whose component was not entered before: that
/// pixel is a leader, the mask holds nothing of its component, and once the
/// component is claimed the covered set has grown by exactly that component.
pub proof fn lemma_scan_finds_leader(g: Grid, x: int, y: int)
    requires
        g.is_foreground((x, y)),
        !covered(g, x, y).contains((x, y)),
    ensures
        is_leader(g, (x, y)),
        forall|v: Point| covered(g, x, y).contains(v) ==> !#[trigger] component(g, (x, y)).contains(v),
        covered(g, x, y + 1) == covered(g, x, y).union(component(g, (x, y))),
        leaders_before(g, x, y + 1) == leaders_before(g, x, y).push((x, y)),
{
    let here = (x, y);
    assert forall|v: Point| covered(g, x, y).contains(v) implies !#[trigger] component(
        g,
        here,
    ).contains(v) by {
        if component(g, here).contains(v) {
            let q = choose|q: Point| #[trigger]
                component(g, v).contains(q) && scanned_before(q, x, y);
            lemma_component_shared(g, here, v);
            assert(component(g, here).contains(q));
        }
    }
    let grown = covered(g, x, y).union(component(g, here));
    assert forall|p: Point| covered(g, x, y + 1).contains(p) <==> grown.contains(p) by {
        if covered(g, x, y + 1).contains(p) {
            let q = choose|q: Point| #[trigger]
                component(g, p).contains(q) && scanned_before(q, x, y + 1);
            if !scanned_before(q, x, y) {
                assert(q == here);
                lemma_component_symmetric(g, p, here);
            }
        }
        if covered(g, x, y).contains(p) {
            let q = choose|q: Point| #[trigger]
                component(g, p).contains(q) && scanned_before(q, x, y);
            assert(scanned_before(q, x, y + 1));
        }
        if component(g, here).contains(p) {
            lemma_component_members(g, here, p);
            lemma_component_symmetric(g, here, p);
            assert(scanned_before(here, x, y + 1));
        }
    }
    assert(covered(g, x, y + 1) =~= grown);
}

/// The positions the scan stands at: the top of a column, possibly the one
/// just past the last, or anywhere further down inside a column.
pub open spec fn is_scan_position(g: Grid, x: int, y: int) -> bool {
    &&& 0 <= x <= g.width
    &&& 0 <= y <= g.height
    &&& y > 0 ==> x < g.width
}

/// What holds of the leaders passed so far at any position of the scan:
/// each is a leader that the scan has passed, they stand in scan order, and
/// their components together are exactly the covered pixels.
pub proof fn lemma_leaders_before(g: Grid, x: int, y: int)
    requires
        is_scan_position(g, x, y),
    ensures
        forall|i: int|
            0 <= i < leaders_before(g, x, y).len() ==> is_leader(
                g,
                #[trigger] leaders_before(g, x, y)[i],
            ) && scanned_before(leaders_before(g, x, y)[i], x, y),
        forall|i: int, j: int|
            0 <= i < j < leaders_before(g, x, y).len() ==> scanned_before(
                #[trigger] leaders_before(g, x, y)[i],
                (#[trigger] leaders_before(g, x, y)[j]).0,
                leaders_before(g, x, y)[j].1,
            ),
        forall|p: Point| #[trigger]
            covered(g, x, y).contains(p) <==> exists|i: int|
                0 <= i < leaders_before(g, x, y).len() && #[trigger] component(
                    g,
                    leaders_before(g, x, y)[i],
                ).contains(p),
    decreases x, y,
{
    let found = leaders_before(g, x, y);
    if y > 0 {
        let here = (x, y - 1);
        let earlier = leaders_before(g, x, y - 1);
        lemma_leaders_before(g, x, y - 1);
        if is_leader(g, here) {
            lemma_scan_finds_leader(g, x, y - 1);
            assert(found == earlier.push(here));
            assert forall|i: int| 0 <= i < found.len() implies is_leader(g, #[trigger] found[i])
                && scanned_before(found[i], x, y) by {
                if i < earlier.len() {
                    assert(found[i] == earlier[i]);
                }
            }
            assert forall|i: int, j: int| 0 <= i < j < found.len() implies scanned_before(
                #[trigger] found[i],
                (#[trigger] found[j]).0,
                found[j].1,
            ) by {
                assert(found[i] == earlier[i]);
                if j < earlier.len() {
                    assert(found[j] == earlier[j]);
                }
            }
            assert forall|p: Point| #[trigger] covered(g, x, y).contains(p) <==> exists|i: int|
                0 <= i < found.len() && #[trigger] component(g, found[i]).contains(p) by {
                if covered(g, x, y).contains(p) {
                    if covered(g, x, y - 1).contains(p) {
                        let i = choose|i: int|
                            0 <= i < earlier.len() && #[trigger] component(g, earlier[i]).contains(
                                p,
                            );
                        assert(component(g, found[i]).contains(p));
                    } else {
                        assert(component(g, found[earlier.len() as int]).contains(p));
                    }
                }
                if exists|i: int|
                    0 <= i < found.len() && #[trigger] component(g, found[i]).contains(p) {
                    let i = choose|i: int|
                        0 <= i < found.len() && #[trigger] component(g, found[i]).contains(p);
                    if i < earlier.len() {
                        assert(component(g, earlier[i]).contains(p));
                    }
                }
            }
        } else {
            if g.is_foreground(here) {
                let first = choose|q: Point| #[trigger]
                    component(g, here).contains(q) && scanned_before(q, x, y - 1);
                assert(covered(g, x, y - 1).contains(here));
            }
            lemma_scan_passes(g, x, y - 1);
        }
    } else if x > 0 {
        let earlier = leaders_before(g, x - 1, g.height as int);
        lemma_leaders_before(g, x - 1, g.height as int);
        lemma_covered_next_column(g, x - 1);
        assert(found == earlier);
        assert forall|i: int| 0 <= i < found.len() implies is_leader(g, #[trigger] found[i])
            && scanned_before(found[i], x, y) by {
            assert(scanned_before(earlier[i], x - 1, g.height as int));
        }
    } else {
        lemma_covered_at_start(g);
    }
}

/// Grids with the same pixels have the same leaders.
pub proof fn lemma_leaders_same_pixels(g: Grid, h: Grid, x: int, y: int)
    requires
        same_pixels(g, h),
        0 <= x,
        0 <= y,
    ensures
        leaders_before(g, x, y) == leaders_before(h, x, y),
    decreases x, y,
{
    if y > 0 {
        let here = (x, y - 1);
        lemma_leaders_same_pixels(g, h, x, y - 1);
        if g.contains(here) {
            assert(g.color(here) == h.color(here));
            lemma_component_same_pixels(g, h, here);
        }
        assert(is_leader(g, here) == is_leader(h, here));
    } else if x > 0 {
        lemma_leaders_same_pixels(g, h, x - 1, g.height as int);
    }
}

} // verus!
