//! What holds of every detection, whatever the image.

use vstd::prelude::*;
use crate::bounds::{inside_box, is_bounding_box, lemma_bounding_box_unique};
use crate::connectivity::{
    component, enterable, fill_set, is_walk, lemma_component_members, lemma_component_reflexive,
    lemma_component_same_pixels, lemma_component_shared,
};
use crate::detect::{describes, is_detection, Region};
use crate::grid::{adjacent, is_background, same_pixels, Grid, Point};
use crate::scan::{
    covered, is_leader, leaders, lemma_leaders_before, lemma_leaders_same_pixels, scanned_before,
};

verus! {

/// The pixels of the `i`-th region of a detection: the component of the
/// `i`-th leader.
pub open spec fn region_pixels(g: Grid, i: int) -> Set<Point> {
    component(g, leaders(g)[i])
}

/// Regions are reported in the order in which the scan discovers them: the
/// first pixel of an earlier region is passed before that of a later one,
/// and each leader is a foreground pixel that comes first in its component.
pub proof fn regions_are_in_discovery_order(g: Grid, i: int, j: int)
    requires
        0 <= i < j < leaders(g).len(),
    ensures
        is_leader(g, leaders(g)[i]),
        is_leader(g, leaders(g)[j]),
        scanned_before(leaders(g)[i], leaders(g)[j].0, leaders(g)[j].1),
{
    lemma_leaders_before(g, g.width as int, 0);
}

/// Every foreground pixel belongs to exactly one region.
pub proof fn foreground_pixel_is_in_exactly_one_region(g: Grid, p: Point)
    requires
        g.is_foreground(p),
    ensures
        exists|i: int| 0 <= i < leaders(g).len() && #[trigger] region_pixels(g, i).contains(p),
        forall|i: int, j: int|
            0 <= i < leaders(g).len() && 0 <= j < leaders(g).len() && #[trigger] region_pixels(
                g,
                i,
            ).contains(p) && #[trigger] region_pixels(g, j).contains(p) ==> i == j,
{
    let found = leaders(g);
    lemma_leaders_before(g, g.width as int, 0);
    lemma_component_reflexive(g, p);
    assert(scanned_before(p, g.width as int, 0));
    assert(covered(g, g.width as int, 0).contains(p));
    let k = choose|k: int| 0 <= k < found.len() && #[trigger] component(g, found[k]).contains(p);
    assert(region_pixels(g, k).contains(p));
    assert forall|i: int, j: int|
        0 <= i < found.len() && 0 <= j < found.len() && #[trigger] region_pixels(g, i).contains(p)
            && #[trigger] region_pixels(g, j).contains(p) implies i == j by {
        lemma_component_shared(g, found[i], p);
        lemma_component_shared(g, found[j], p);
        lemma_component_reflexive(g, found[i]);
        lemma_component_reflexive(g, found[j]);
        assert(component(g, found[i]).contains(found[j]));
        assert(component(g, found[j]).contains(found[i]));
        if i < j {
            assert(scanned_before(found[i], found[j].0, found[j].1));
        }
        if j < i {
            assert(scanned_before(found[j], found[i].0, found[i].1));
        }
    }
}

/// Filling again from any pixel of a region, on an empty mask, claims that
/// region and nothing else.
pub proof fn refill_from_any_pixel_gives_the_region(g: Grid, i: int, p: Point)
    requires
        0 <= i < leaders(g).len(),
        region_pixels(g, i).contains(p),
    ensures
        fill_set(g, Set::empty(), g.color(p), p) == region_pixels(g, i),
{
    lemma_leaders_before(g, g.width as int, 0);
    lemma_component_shared(g, leaders(g)[i], p);
}

/// Every pixel of a region is a foreground pixel of the region's color, so
/// the regions together hold the foreground pixels and nothing else.
pub proof fn region_pixels_are_foreground(g: Grid, regions: Seq<Region>, i: int, p: Point)
    requires
        is_detection(g, regions),
        0 <= i < regions.len(),
        region_pixels(g, i).contains(p),
    ensures
        g.is_foreground(p),
        g.color(p) == regions[i].color@,
{
    lemma_leaders_before(g, g.width as int, 0);
    lemma_component_members(g, leaders(g)[i], p);
    assert(describes(g, regions[i], leaders(g)[i]));
}

/// A grid whose pixels are all background, be it all pure white, all pure
/// black or a mix of both, has no regions.
pub proof fn background_has_no_regions(g: Grid, regions: Seq<Region>)
    requires
        forall|p: Point| g.contains(p) ==> is_background(#[trigger] g.color(p)),
        is_detection(g, regions),
    ensures
        regions.len() == 0,
{
    lemma_leaders_before(g, g.width as int, 0);
    if leaders(g).len() > 0 {
        let first = leaders(g)[0];
        assert(is_leader(g, first));
        assert(is_background(g.color(first)));
    }
}

/// The bounding box of a region is tight: no pixel of the region lies
/// outside it, and on each of its four edges lies a pixel of the region,
/// which has the region's color.
pub proof fn bounding_box_is_tight(g: Grid, regions: Seq<Region>, i: int)
    requires
        is_detection(g, regions),
        0 <= i < regions.len(),
    ensures
        regions[i].bounds.0 <= regions[i].bounds.2,
        regions[i].bounds.1 <= regions[i].bounds.3,
        forall|p: Point| #[trigger]
            region_pixels(g, i).contains(p) ==> inside_box(regions[i].bounds, p),
        exists|p: Point| #[trigger]
            region_pixels(g, i).contains(p) && g.color(p) == regions[i].color@ && inside_box(
                regions[i].bounds,
                p,
            ) && p.0 == regions[i].bounds.0,
        exists|p: Point| #[trigger]
            region_pixels(g, i).contains(p) && g.color(p) == regions[i].color@ && inside_box(
                regions[i].bounds,
                p,
            ) && p.1 == regions[i].bounds.1,
        exists|p: Point| #[trigger]
            region_pixels(g, i).contains(p) && g.color(p) == regions[i].color@ && inside_box(
                regions[i].bounds,
                p,
            ) && p.0 == regions[i].bounds.2,
        exists|p: Point| #[trigger]
            region_pixels(g, i).contains(p) && g.color(p) == regions[i].color@ && inside_box(
                regions[i].bounds,
                p,
            ) && p.1 == regions[i].bounds.3,
{
    let b = regions[i].bounds;
    let pixels = region_pixels(g, i);
    lemma_leaders_before(g, g.width as int, 0);
    assert(describes(g, regions[i], leaders(g)[i]));
    assert(is_bounding_box(pixels, b));
    let left = choose|p: Point| #[trigger] pixels.contains(p) && p.0 == b.0;
    let top = choose|p: Point| #[trigger] pixels.contains(p) && p.1 == b.1;
    let right = choose|p: Point| #[trigger] pixels.contains(p) && p.0 == b.2;
    let bottom = choose|p: Point| #[trigger] pixels.contains(p) && p.1 == b.3;
    region_pixels_are_foreground(g, regions, i, left);
    region_pixels_are_foreground(g, regions, i, top);
    region_pixels_are_foreground(g, regions, i, right);
    region_pixels_are_foreground(g, regions, i, bottom);
    assert(inside_box(b, left) && inside_box(b, top) && inside_box(b, right) && inside_box(
        b,
        bottom,
    ));
}

/// Where a region is the only one of its color, no pixel of that color lies
/// outside its bounding box.
pub proof fn lone_color_lies_inside_its_box(g: Grid, regions: Seq<Region>, i: int, p: Point)
    requires
        is_detection(g, regions),
        0 <= i < regions.len(),
        forall|j: int|
            0 <= j < regions.len() && j != i ==> (#[trigger] regions[j]).color@
                != regions[i].color@,
        g.contains(p),
        g.color(p) == regions[i].color@,
    ensures
        inside_box(regions[i].bounds, p),
{
    lemma_leaders_before(g, g.width as int, 0);
    assert(describes(g, regions[i], leaders(g)[i]));
    assert(is_leader(g, leaders(g)[i]));
    foreground_pixel_is_in_exactly_one_region(g, p);
    let j = choose|j: int| 0 <= j < leaders(g).len() && #[trigger] region_pixels(g, j).contains(p);
    region_pixels_are_foreground(g, regions, j, p);
    assert(j == i);
}

/// A grid has one detection only: two runs on the same grid report the same
/// regions in the same order.
pub proof fn detection_is_unique(g: Grid, first: Seq<Region>, second: Seq<Region>)
    requires
        is_detection(g, first),
        is_detection(g, second),
    ensures
        first == second,
{
    assert forall|i: int| 0 <= i < first.len() implies first[i] == second[i] by {
        let leader = leaders(g)[i];
        assert(describes(g, first[i], leader));
        assert(describes(g, second[i], leader));
        lemma_bounding_box_unique(component(g, leader), first[i].bounds, second[i].bounds);
        assert(first[i].color@ == second[i].color@);
        assert(first[i].color =~= second[i].color);
    }
    assert(first =~= second);
}

/// A detection depends on nothing but the size of the grid and the colors
/// inside it: grids with the same pixels have the same detection.
pub proof fn detection_depends_on_pixels_only(
    g: Grid,
    h: Grid,
    first: Seq<Region>,
    second: Seq<Region>,
)
    requires
        same_pixels(g, h),
        is_detection(g, first),
        is_detection(h, second),
    ensures
        first == second,
{
    lemma_leaders_same_pixels(g, h, g.width as int, 0);
    lemma_leaders_before(g, g.width as int, 0);
    assert forall|i: int| 0 <= i < first.len() implies describes(g, second[i], leaders(g)[i]) by {
        let leader = leaders(g)[i];
        assert(is_leader(g, leader));
        assert(describes(h, second[i], leader));
        assert(g.color(leader) == h.color(leader));
        lemma_component_same_pixels(g, h, leader);
    }
    assert(is_detection(g, second));
    detection_is_unique(g, first, second);
}

/// Diagonal contact does not join pixels. A foreground pixel none of whose
/// four edge neighbors has its color is a region of its own, so a pixel
/// that touches it only at a corner lies in another region, even where the
/// two have the same color.
pub proof fn diagonal_contact_does_not_join(g: Grid, a: Point, b: Point, i: int, j: int)
    requires
        g.is_foreground(a),
        g.is_foreground(b),
        g.color(a) == g.color(b),
        b.0 == a.0 + 1 || b.0 == a.0 - 1,
        b.1 == a.1 + 1 || b.1 == a.1 - 1,
        forall|n: Point| #[trigger] adjacent(a, n) && g.contains(n) ==> g.color(n) != g.color(a),
        0 <= i < leaders(g).len(),
        0 <= j < leaders(g).len(),
        region_pixels(g, i).contains(a),
        region_pixels(g, j).contains(b),
    ensures
        region_pixels(g, i) == set![a],
        i != j,
{
    let none = Set::<Point>::empty();
    lemma_leaders_before(g, g.width as int, 0);
    lemma_component_reflexive(g, a);
    assert forall|p: Point| component(g, a).contains(p) implies p == a by {
        let w = choose|w: Seq<Point>| #[trigger]
            is_walk(g, none, g.color(a), w) && w[0] == a && w.last() == p;
        if w.len() > 1 {
            assert(enterable(g, none, g.color(a), w[1]) && adjacent(w[0], w[1]));
        }
    }
    assert(component(g, a) =~= set![a]);
    lemma_component_shared(g, leaders(g)[i], a);
}

} // verus!
