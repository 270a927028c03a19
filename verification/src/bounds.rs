//! Axis-aligned bounding boxes of sets of pixels.

use vstd::prelude::*;
use crate::grid::Point;

verus! {

/// A box `(min_x, min_y, max_x, max_y)`, inclusive on all four edges.
pub type Bounds = (u32, u32, u32, u32);

/// Whether `p` lies inside `b`, edges included.
pub open spec fn inside_box(b: Bounds, p: Point) -> bool {
    b.0 <= p.0 <= b.2 && b.1 <= p.1 <= b.3
}

/// Whether `b` is the tight bounding box of `s`: every pixel of `s` lies
/// inside it, and each of its four edges is touched by some pixel of `s`.
pub open spec fn is_bounding_box(s: Set<Point>, b: Bounds) -> bool {
    &&& forall|p: Point| #[trigger] s.contains(p) ==> inside_box(b, p)
    &&& exists|p: Point| #[trigger] s.contains(p) && p.0 == b.0
    &&& exists|p: Point| #[trigger] s.contains(p) && p.1 == b.1
    &&& exists|p: Point| #[trigger] s.contains(p) && p.0 == b.2
    &&& exists|p: Point| #[trigger] s.contains(p) && p.1 == b.3
}

/// A set has at most one bounding box.
pub proof fn lemma_bounding_box_unique(s: Set<Point>, a: Bounds, b: Bounds)
    requires
        is_bounding_box(s, a),
        is_bounding_box(s, b),
    ensures
        a == b,
{
    let al = choose|p: Point| #[trigger] s.contains(p) && p.0 == a.0;
    let at = choose|p: Point| #[trigger] s.contains(p) && p.1 == a.1;
    let ar = choose|p: Point| #[trigger] s.contains(p) && p.0 == a.2;
    let ab = choose|p: Point| #[trigger] s.contains(p) && p.1 == a.3;
    let bl = choose|p: Point| #[trigger] s.contains(p) && p.0 == b.0;
    let bt = choose|p: Point| #[trigger] s.contains(p) && p.1 == b.1;
    let br = choose|p: Point| #[trigger] s.contains(p) && p.0 == b.2;
    let bb = choose|p: Point| #[trigger] s.contains(p) && p.1 == b.3;
    assert(inside_box(b, al) && inside_box(b, at) && inside_box(b, ar) && inside_box(b, ab));
    assert(inside_box(a, bl) && inside_box(a, bt) && inside_box(a, br) && inside_box(a, bb));
}

} // verus!
