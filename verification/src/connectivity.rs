//! Which pixels a fill reaches from a seed, and the connected component of a
//! pixel: the maximal group of equally colored pixels joined edge to edge.

use vstd::prelude::*;
use crate::grid::{adjacent, same_pixels, Grid, Point};

verus! {

/// A pixel a fill for `target` may step onto: inside the grid, not yet in
/// `visited`, and of exactly the color `target` (all four channels).
pub open spec fn enterable(g: Grid, visited: Set<Point>, target: Seq<u8>, p: Point) -> bool {
    g.contains(p) && !visited.contains(p) && g.color(p) == target
}

/// A walk is a non-empty sequence of coordinates in which every element
/// after the first is enterable and adjacent to the one before it.
pub open spec fn is_walk(g: Grid, visited: Set<Point>, target: Seq<u8>, w: Seq<Point>) -> bool {
    &&& w.len() > 0
    &&& forall|i: int|
        0 < i < w.len() ==> enterable(g, visited, target, #[trigger] w[i]) && adjacent(
            w[i - 1],
            w[i],
        )
}

/// Whether some walk leads from `seed` to `p`.
pub open spec fn fill_reaches(
    g: Grid,
    visited: Set<Point>,
    target: Seq<u8>,
    seed: Point,
    p: Point,
) -> bool {
    exists|w: Seq<Point>| #[trigger] is_walk(g, visited, target, w) && w[0] == seed && w.last() == p
}

/// The pixels a fill claims when started at `seed` with the mask `visited`:
/// nothing if the seed is already visited, otherwise the seed and every
/// pixel some walk from the seed leads to.
pub open spec fn fill_set(g: Grid, visited: Set<Point>, target: Seq<u8>, seed: Point) -> Set<
    Point,
> {
    Set::new(|p: Point| !visited.contains(seed) && fill_reaches(g, visited, target, seed, p))
}

/// The connected component of `p`: every pixel joined to `p` by a chain of
/// edge-adjacent pixels of `p`'s color.
pub open spec fn component(g: Grid, p: Point) -> Set<Point> {
    fill_set(g, Set::empty(), g.color(p), p)
}

/// An unvisited seed belongs to its own fill.
pub proof fn lemma_fill_has_seed(g: Grid, visited: Set<Point>, target: Seq<u8>, seed: Point)
    requires
        !visited.contains(seed),
    ensures
        fill_set(g, visited, target, seed).contains(seed),
{
    let w = seq![seed];
    assert(is_walk(g, visited, target, w));
}

/// A fill that holds `p` also holds every enterable pixel adjacent to `p`.
pub proof fn lemma_fill_step(
    g: Grid,
    visited: Set<Point>,
    target: Seq<u8>,
    seed: Point,
    p: Point,
    q: Point,
)
    requires
        fill_set(g, visited, target, seed).contains(p),
        adjacent(p, q),
        enterable(g, visited, target, q),
    ensures
        fill_set(g, visited, target, seed).contains(q),
{
    let w = choose|w: Seq<Point>| #[trigger]
        is_walk(g, visited, target, w) && w[0] == seed && w.last() == p;
    let w2 = w.push(q);
    assert forall|i: int| 0 < i < w2.len() implies enterable(g, visited, target, #[trigger] w2[i])
        && adjacent(w2[i - 1], w2[i]) by {
        if i < w.len() {
            assert(w2[i] == w[i]);
            assert(w2[i - 1] == w[i - 1]);
        }
    }
    assert(is_walk(g, visited, target, w2));
    assert(w2[0] == seed && w2.last() == q);
}

/// Every pixel of a fill is the seed or an enterable pixel.
pub proof fn lemma_fill_members(
    g: Grid,
    visited: Set<Point>,
    target: Seq<u8>,
    seed: Point,
    p: Point,
)
    requires
        fill_set(g, visited, target, seed).contains(p),
    ensures
        !visited.contains(seed),
        p == seed || enterable(g, visited, target, p),
{
    let w = choose|w: Seq<Point>| #[trigger]
        is_walk(g, visited, target, w) && w[0] == seed && w.last() == p;
    if w.len() > 1 {
        assert(enterable(g, visited, target, w[w.len() - 1]));
    }
}

/// Along a walk that starts inside a set closed under enterable neighbors,
/// every element stays inside that set.
proof fn lemma_walk_stays_inside(
    g: Grid,
    visited: Set<Point>,
    target: Seq<u8>,
    w: Seq<Point>,
    closed: Set<Point>,
    i: int,
)
    requires
        is_walk(g, visited, target, w),
        closed.contains(w[0]),
        forall|p: Point, q: Point|
            closed.contains(p) && #[trigger] adjacent(p, q) && enterable(g, visited, target, q)
                ==> closed.contains(q),
        0 <= i < w.len(),
    ensures
        closed.contains(w[i]),
    decreases i,
{
    if i > 0 {
        lemma_walk_stays_inside(g, visited, target, w, closed, i - 1);
        assert(enterable(g, visited, target, w[i]) && adjacent(w[i - 1], w[i]));
    }
}

/// A fill is the least set that holds the seed and is closed under stepping
/// to enterable neighbors: any such set holds the whole fill.
pub proof fn lemma_fill_within_closed(
    g: Grid,
    visited: Set<Point>,
    target: Seq<u8>,
    seed: Point,
    closed: Set<Point>,
)
    requires
        closed.contains(seed),
        forall|p: Point, q: Point|
            closed.contains(p) && #[trigger] adjacent(p, q) && enterable(g, visited, target, q)
                ==> closed.contains(q),
    ensures
        fill_set(g, visited, target, seed).subset_of(closed),
{
    assert forall|p: Point| fill_set(g, visited, target, seed).contains(p) implies closed.contains(
        p,
    ) by {
        let w = choose|w: Seq<Point>| #[trigger]
            is_walk(g, visited, target, w) && w[0] == seed && w.last() == p;
        lemma_walk_stays_inside(g, visited, target, w, closed, w.len() - 1);
    }
}

/// Every pixel of a component lies inside the grid and has the color of the
/// pixel the component was taken of.
pub proof fn lemma_component_members(g: Grid, p: Point, q: Point)
    requires
        g.contains(p),
        component(g, p).contains(q),
    ensures
        g.contains(q),
        g.color(q) == g.color(p),
{
    lemma_fill_members(g, Set::empty(), g.color(p), p, q);
}

/// A pixel belongs to its own component.
pub proof fn lemma_component_reflexive(g: Grid, p: Point)
    ensures
        component(g, p).contains(p),
{
    lemma_fill_has_seed(g, Set::empty(), g.color(p), p);
}

/// If `q` is in the component of `p`, then `p` is in the component of `q`.
pub proof fn lemma_component_symmetric(g: Grid, p: Point, q: Point)
    requires
        g.contains(p),
        component(g, p).contains(q),
    ensures
        component(g, q).contains(p),
{
    let none = Set::<Point>::empty();
    let c = g.color(p);
    lemma_component_members(g, p, q);
    let w = choose|w: Seq<Point>| #[trigger] is_walk(g, none, c, w) && w[0] == p && w.last() == q;
    let n = w.len() as int;
    let back = Seq::new(w.len(), |i: int| w[n - 1 - i]);
    assert forall|i: int| 0 < i < back.len() implies enterable(g, none, c, #[trigger] back[i])
        && adjacent(back[i - 1], back[i]) by {
        assert(back[i] == w[n - 1 - i]);
        assert(back[i - 1] == w[n - i]);
        assert(enterable(g, none, c, w[n - i]) && adjacent(w[n - i - 1], w[n - i]));
        if n - 1 - i > 0 {
            assert(enterable(g, none, c, w[n - 1 - i]));
        }
    }
    assert(is_walk(g, none, g.color(q), back));
    assert(back[0] == q && back.last() == p);
}

/// If `b` is in the component of `a` and `c` in that of `b`, then `c` is in
/// the component of `a`.
pub proof fn lemma_component_transitive(g: Grid, a: Point, b: Point, c: Point)
    requires
        g.contains(a),
        component(g, a).contains(b),
        component(g, b).contains(c),
    ensures
        component(g, a).contains(c),
{
    let none = Set::<Point>::empty();
    let t = g.color(a);
    lemma_component_members(g, a, b);
    let w1 = choose|w: Seq<Point>| #[trigger] is_walk(g, none, t, w) && w[0] == a && w.last() == b;
    let w2 = choose|w: Seq<Point>| #[trigger] is_walk(g, none, t, w) && w[0] == b && w.last() == c;
    let n1 = w1.len() as int;
    let tail = w2.subrange(1, w2.len() as int);
    let w = w1 + tail;
    assert forall|i: int| 0 < i < w.len() implies enterable(g, none, t, #[trigger] w[i])
        && adjacent(w[i - 1], w[i]) by {
        if i < n1 {
            assert(w[i] == w1[i] && w[i - 1] == w1[i - 1]);
        } else {
            assert(w[i] == w2[i - n1 + 1]);
            assert(enterable(g, none, t, w2[i - n1 + 1]) && adjacent(w2[i - n1], w2[i - n1 + 1]));
            if i == n1 {
                assert(w[i - 1] == w1[n1 - 1]);
            } else {
                assert(w[i - 1] == w2[i - n1]);
            }
        }
    }
    assert(is_walk(g, none, t, w));
    assert(w[0] == w1[0]);
    if w2.len() > 1 {
        assert(w.last() == w2[w2.len() - 1]);
    } else {
        assert(w =~= w1);
    }
    assert(w[0] == a && w.last() == c);
}

/// Two pixels of one component have the same component.
pub proof fn lemma_component_shared(g: Grid, p: Point, q: Point)
    requires
        g.contains(p),
        component(g, p).contains(q),
    ensures
        component(g, q) == component(g, p),
{
    lemma_component_members(g, p, q);
    lemma_component_symmetric(g, p, q);
    assert forall|r: Point| component(g, q).contains(r) <==> component(g, p).contains(r) by {
        if component(g, q).contains(r) {
            lemma_component_transitive(g, p, q, r);
        }
        if component(g, p).contains(r) {
            lemma_component_transitive(g, q, p, r);
        }
    }
    assert(component(g, q) =~= component(g, p));
}

/// A fill for the seed's own color claims exactly the seed's component,
/// provided the mask holds no pixel of that component.
pub proof fn lemma_fill_claims_component(g: Grid, visited: Set<Point>, seed: Point)
    requires
        g.contains(seed),
        forall|v: Point| visited.contains(v) ==> !#[trigger] component(g, seed).contains(v),
    ensures
        fill_set(g, visited, g.color(seed), seed) == component(g, seed),
{
    let none = Set::<Point>::empty();
    let t = g.color(seed);
    let filled = fill_set(g, visited, t, seed);
    lemma_component_reflexive(g, seed);
    assert(!visited.contains(seed));
    assert forall|p: Point| filled.contains(p) <==> component(g, seed).contains(p) by {
        if filled.contains(p) {
            let w = choose|w: Seq<Point>| #[trigger]
                is_walk(g, visited, t, w) && w[0] == seed && w.last() == p;
            assert forall|i: int| 0 < i < w.len() implies enterable(g, none, t, #[trigger] w[i])
                && adjacent(w[i - 1], w[i]) by {
                assert(enterable(g, visited, t, w[i]));
            }
            assert(is_walk(g, none, t, w));
        }
        if component(g, seed).contains(p) {
            let w = choose|w: Seq<Point>| #[trigger]
                is_walk(g, none, t, w) && w[0] == seed && w.last() == p;
            assert forall|i: int| 0 < i < w.len() implies enterable(g, visited, t, #[trigger] w[i])
                && adjacent(w[i - 1], w[i]) by {
                assert(enterable(g, none, t, w[i]));
                let head = w.subrange(0, i + 1);
                assert forall|j: int| 0 < j < head.len() implies enterable(
                    g,
                    none,
                    t,
                    #[trigger] head[j],
                ) && adjacent(head[j - 1], head[j]) by {
                    assert(head[j] == w[j] && head[j - 1] == w[j - 1]);
                }
                assert(is_walk(g, none, t, head));
                assert(head[0] == seed && head.last() == w[i]);
                assert(component(g, seed).contains(w[i]));
            }
            assert(is_walk(g, visited, t, w));
        }
    }
    assert(filled =~= component(g, seed));
}

/// Grids with the same pixels have the same components.
pub proof fn lemma_component_same_pixels(g: Grid, h: Grid, p: Point)
    requires
        same_pixels(g, h),
        g.contains(p),
    ensures
        component(g, p) == component(h, p),
{
    let none = Set::<Point>::empty();
    assert(g.color(p) == h.color(p));
    assert forall|q: Point| component(g, p).contains(q) <==> component(h, p).contains(q) by {
        if component(g, p).contains(q) {
            let w = choose|w: Seq<Point>| #[trigger]
                is_walk(g, none, g.color(p), w) && w[0] == p && w.last() == q;
            assert forall|i: int| 0 < i < w.len() implies enterable(
                h,
                none,
                h.color(p),
                #[trigger] w[i],
            ) && adjacent(w[i - 1], w[i]) by {
                assert(enterable(g, none, g.color(p), w[i]));
                assert(g.color(w[i]) == h.color(w[i]));
            }
            assert(is_walk(h, none, h.color(p), w));
        }
        if component(h, p).contains(q) {
            let w = choose|w: Seq<Point>| #[trigger]
                is_walk(h, none, h.color(p), w) && w[0] == p && w.last() == q;
            assert forall|i: int| 0 < i < w.len() implies enterable(
                g,
                none,
                g.color(p),
                #[trigger] w[i],
            ) && adjacent(w[i - 1], w[i]) by {
                assert(enterable(h, none, h.color(p), w[i]));
                assert(g.color(w[i]) == h.color(w[i]));
            }
            assert(is_walk(g, none, g.color(p), w));
        }
    }
    assert(component(g, p) =~= component(h, p));
}

} // verus!
