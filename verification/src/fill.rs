//! The breadth-first flood fill that claims one region and measures its
//! bounding box.

use vstd::prelude::*;
use std::collections::VecDeque;
use crate::bounds::{inside_box, is_bounding_box, Bounds};
use crate::connectivity::{
    enterable, fill_set, lemma_fill_has_seed, lemma_fill_step, lemma_fill_within_closed,
};
use crate::grid::{adjacent, lemma_adjacent_is_neighbor, neighbor, Grid, Point};
use crate::raster::{dimensions, get_pixel, grid_of, image_dimensions, VisitedMask};
use crate::scan::scanned_before;

verus! {

/// A pair of pixel coordinates as a point of the model.
pub open spec fn point_of(c: (u32, u32)) -> Point {
    (c.0 as int, c.1 as int)
}

/// The coordinates waiting in the frontier queue.
spec fn pending(queue: Seq<(u32, u32)>) -> Set<Point> {
    Set::new(|p: Point| exists|i: int| 0 <= i < queue.len() && point_of(#[trigger] queue[i]) == p)
}

/// Every coordinate in the queue lies inside the image and is the seed or a
/// pixel of the fill.
spec fn frontier_is_sound(
    queue: Seq<(u32, u32)>,
    width: u32,
    height: u32,
    seed: Point,
    fill: Set<Point>,
) -> bool {
    forall|i: int|
        0 <= i < queue.len() ==> {
            &&& (#[trigger] queue[i]).0 < width
            &&& queue[i].1 < height
            &&& (point_of(queue[i]) == seed || fill.contains(point_of(queue[i])))
        }
}

/// Every enterable neighbor of a pixel claimed so far is itself marked or
/// waiting in the queue.
spec fn neighbors_are_handled(
    g: Grid,
    before: Set<Point>,
    target: Seq<u8>,
    marked: Set<Point>,
    queue: Seq<(u32, u32)>,
) -> bool {
    forall|p: Point, q: Point|
        marked.contains(p) && !before.contains(p) && #[trigger] adjacent(p, q) && enterable(
            g,
            before,
            target,
            q,
        ) ==> marked.contains(q) || pending(queue).contains(q)
}

/// `edge` is the seed or a pixel claimed so far.
spec fn is_claimed_or_seed(edge: Point, seed: Point, before: Set<Point>, marked: Set<Point>) -> bool {
    edge == seed || (marked.contains(edge) && !before.contains(edge))
}

/// Pushing keeps what was waiting and adds the pushed coordinate.
proof fn lemma_pending_push(queue: Seq<(u32, u32)>, c: (u32, u32))
    ensures
        pending(queue.push(c)).contains(point_of(c)),
        forall|p: Point|
            pending(queue).contains(p) ==> #[trigger] pending(queue.push(c)).contains(p),
{
    let longer = queue.push(c);
    assert(point_of(longer[queue.len() as int]) == point_of(c));
    assert forall|p: Point| pending(queue).contains(p) implies #[trigger] pending(longer).contains(
        p,
    ) by {
        let i = choose|i: int| 0 <= i < queue.len() && point_of(#[trigger] queue[i]) == p;
        assert(point_of(longer[i]) == p);
    }
}

/// Popping the front removes no coordinate but the one popped.
proof fn lemma_pending_pop(queue: Seq<(u32, u32)>)
    requires
        queue.len() > 0,
    ensures
        forall|p: Point|
            pending(queue).contains(p) && p != point_of(queue[0]) ==> #[trigger] pending(
                queue.subrange(1, queue.len() as int),
            ).contains(p),
{
    let rest = queue.subrange(1, queue.len() as int);
    assert forall|p: Point| pending(queue).contains(p) && p != point_of(queue[0]) implies #[trigger]
        pending(rest).contains(p) by {
        let i = choose|i: int| 0 <= i < queue.len() && point_of(#[trigger] queue[i]) == p;
        assert(point_of(rest[i - 1]) == p);
    }
}

/// How many of the pixels that come before row `y` of column `x` in scan
/// order are not in `visited`.
spec fn unvisited_before(g: Grid, visited: Set<Point>, x: int, y: int) -> nat
    decreases x, y,
{
    if y > 0 {
        unvisited_before(g, visited, x, y - 1) + if visited.contains((x, y - 1)) {
            0nat
        } else {
            1nat
        }
    } else if x > 0 {
        unvisited_before(g, visited, x - 1, g.height as int)
    } else {
        0
    }
}

/// How many pixels of the grid are not in `visited`. Each pixel that a fill
/// marks lowers this number by one, which is why the fill comes to an end.
spec fn unvisited_total(g: Grid, visited: Set<Point>) -> nat {
    unvisited_before(g, visited, g.width as int, 0)
}

/// Marking an unvisited pixel lowers the count by one from that pixel on.
proof fn lemma_mark_counts_once(g: Grid, visited: Set<Point>, p: Point, x: int, y: int)
    requires
        g.contains(p),
        !visited.contains(p),
        0 <= x,
        0 <= y <= g.height,
    ensures
        unvisited_before(g, visited, x, y) == unvisited_before(g, visited.insert(p), x, y)
            + if scanned_before(p, x, y) {
            1nat
        } else {
            0nat
        },
    decreases x, y,
{
    if y > 0 {
        lemma_mark_counts_once(g, visited, p, x, y - 1);
    } else if x > 0 {
        lemma_mark_counts_once(g, visited, p, x - 1, g.height as int);
    }
}

/// Whether two colors agree in all four channels.
fn same_color(a: &[u8; 4], b: &[u8; 4]) -> (same: bool)
    ensures
        same == (a@ == b@),
{
    let same: bool = a[0] == b[0] && a[1] == b[1] && a[2] == b[2] && a[3] == b[3];
    proof {
        if same {
            assert(a@ =~= b@);
        }
    }
    same
}

/// The `k`-th neighbor of `(x, y)`, if it lies inside an image of the given
/// size.
fn step(x: u32, y: u32, k: usize, width: u32, height: u32) -> (next: Option<(u32, u32)>)
    requires
        x < width,
        y < height,
        k < 4,
    ensures
        match next {
            Some(c) => point_of(c) == neighbor(point_of((x, y)), k as int) && c.0 < width && c.1
                < height,
            None => {
                let n = neighbor(point_of((x, y)), k as int);
                !(0 <= n.0 < width && 0 <= n.1 < height)
            },
        },
{
    if k == 0 {
        if y + 1 < height {
            Some((x, y + 1))
        } else {
            None
        }
    } else if k == 1 {
        if x + 1 < width {
            Some((x + 1, y))
        } else {
            None
        }
    } else if k == 2 {
        if y > 0 {
            Some((x, y - 1))
        } else {
            None
        }
    } else {
        if x > 0 {
            Some((x - 1, y))
        } else {
            None
        }
    }
}

/// Claims the region around `(start_x, start_y)` and returns its bounding
/// box `(min_x, min_y, max_x, max_y)`.
///
/// Starting from the seed, the fill spreads breadth first over edge-adjacent
/// pixels that are not yet marked in `processed` and whose color equals
/// `target_color` in all four channels, and marks every pixel it claims. The
/// seed itself is claimed whatever its color, unless it is already marked; in
/// that case nothing is claimed and the box is the seed alone.
///
/// `processed` must have the dimensions of `img`, and the seed must lie
/// inside the image.
pub fn flood_fill(
    img: &image::DynamicImage,
    processed: &mut VisitedMask,
    start_x: u32,
    start_y: u32,
    target_color: [u8; 4],
) -> (bounds: Bounds)
    requires
        old(processed).dimensions() == image_dimensions(*img),
        start_x < image_dimensions(*img).0,
        start_y < image_dimensions(*img).1,
    ensures
        final(processed).dimensions() == old(processed).dimensions(),
        final(processed).visited() == old(processed).visited().union(
            fill_set(
                grid_of(*img),
                old(processed).visited(),
                target_color@,
                (start_x as int, start_y as int),
            ),
        ),
        is_bounding_box(
            fill_set(
                grid_of(*img),
                old(processed).visited(),
                target_color@,
                (start_x as int, start_y as int),
            ).insert((start_x as int, start_y as int)),
            bounds,
        ),
{
    let (width, height): (u32, u32) = dimensions(img);
    let mut queue: VecDeque<(u32, u32)> = VecDeque::new();
    queue.push_back((start_x, start_y));

    let mut min_x: u32 = start_x;
    let mut max_x: u32 = start_x;
    let mut min_y: u32 = start_y;
    let mut max_y: u32 = start_y;

    let ghost g = grid_of(*img);
    let ghost before = processed.visited();
    let ghost seed: Point = (start_x as int, start_y as int);
    let ghost target = target_color@;
    let ghost fill = fill_set(g, before, target, seed);
    // On each edge of the box, a claimed pixel or the seed.
    let ghost left = seed;
    let ghost top = seed;
    let ghost right = seed;
    let ghost bottom = seed;

    proof {
        assert(queue@ =~= seq![(start_x, start_y)]);
        assert(point_of(queue@[0]) == seed);
    }

    while queue.len() > 0
        invariant
            g == grid_of(*img),
            seed == (start_x as int, start_y as int),
            target == target_color@,
            fill == fill_set(g, before, target, seed),
            before == old(processed).visited(),
            (width, height) == image_dimensions(*img),
            processed.dimensions() == (width, height),
            start_x < width,
            start_y < height,
            before.subset_of(processed.visited()),
            processed.visited().difference(before).subset_of(fill),
            frontier_is_sound(queue@, width, height, seed, fill),
            neighbors_are_handled(g, before, target, processed.visited(), queue@),
            processed.visited().contains(seed) || pending(queue@).contains(seed),
            min_x <= start_x <= max_x,
            min_y <= start_y <= max_y,
            forall|p: Point| #[trigger]
                processed.visited().contains(p) && !before.contains(p) ==> inside_box(
                    (min_x, min_y, max_x, max_y),
                    p,
                ),
            left.0 == min_x && is_claimed_or_seed(left, seed, before, processed.visited()),
            top.1 == min_y && is_claimed_or_seed(top, seed, before, processed.visited()),
            right.0 == max_x && is_claimed_or_seed(right, seed, before, processed.visited()),
            bottom.1 == max_y && is_claimed_or_seed(bottom, seed, before, processed.visited()),
        decreases 5 * unvisited_total(g, processed.visited()) + queue@.len(),
    {
        let ghost waiting = queue@;
        let ghost marked = processed.visited();
        let (x, y): (u32, u32) = queue.pop_front().unwrap();
        let ghost here: Point = (x as int, y as int);
        let ghost rest = queue@;
        proof {
            assert(point_of(waiting[0]) == here);
            lemma_pending_pop(waiting);
            assert forall|i: int| 0 <= i < rest.len() implies {
                &&& (#[trigger] rest[i]).0 < width
                &&& rest[i].1 < height
                &&& (point_of(rest[i]) == seed || fill.contains(point_of(rest[i])))
            } by {
                assert(rest[i] == waiting[i + 1]);
            }
        }
        if !processed.is_visited(x, y) {
            // Mark this pixel as processed.
            processed.mark(x, y);
            proof {
                lemma_mark_counts_once(g, marked, here, g.width as int, 0);
                if here == seed {
                    lemma_fill_has_seed(g, before, target, seed);
                }
                assert(fill.contains(here));
            }

            // Update bounds.
            if x < min_x {
                min_x = x;
                proof {
                    left = here;
                }
            }
            if x > max_x {
                max_x = x;
                proof {
                    right = here;
                }
            }
            if y < min_y {
                min_y = y;
                proof {
                    top = here;
                }
            }
            if y > max_y {
                max_y = y;
                proof {
                    bottom = here;
                }
            }

            // Check neighbors.
            let mut k: usize = 0;
            while k < 4
                invariant
                    k <= 4,
                    g == grid_of(*img),
                    target == target_color@,
                    fill == fill_set(g, before, target, seed),
                    here == (x as int, y as int),
                    x < width,
                    y < height,
                    (width, height) == image_dimensions(*img),
                    processed.dimensions() == (width, height),
                    processed.visited() == marked.insert(here),
                    before.subset_of(marked),
                    fill.contains(here),
                    frontier_is_sound(queue@, width, height, seed, fill),
                    pending(rest).subset_of(pending(queue@)),
                    forall|j: int|
                        0 <= j < k && enterable(g, before, target, #[trigger] neighbor(here, j))
                            ==> marked.insert(here).contains(neighbor(here, j)) || pending(
                            queue@,
                        ).contains(neighbor(here, j)),
                    queue@.len() <= rest.len() + k,
                decreases 4 - k,
            {
                match step(x, y, k, width, height) {
                    Some((nx, ny)) => {
                        let color: [u8; 4] = get_pixel(img, nx, ny);
                        if same_color(&color, &target_color) && !processed.is_visited(nx, ny) {
                            proof {
                                lemma_pending_push(queue@, (nx, ny));
                                assert(adjacent(here, neighbor(here, k as int)));
                                lemma_fill_step(
                                    g,
                                    before,
                                    target,
                                    seed,
                                    here,
                                    (nx as int, ny as int),
                                );
                            }
                            queue.push_back((nx, ny));
                        }
                    },
                    None => {},
                }
                k += 1;
            }
            proof {
                assert forall|p: Point, q: Point|
                    processed.visited().contains(p) && !before.contains(p) && #[trigger] adjacent(
                        p,
                        q,
                    ) && enterable(g, before, target, q) implies processed.visited().contains(q)
                    || pending(queue@).contains(q) by {
                    if p == here {
                        lemma_adjacent_is_neighbor(p, q);
                        let j = choose|j: int| 0 <= j < 4 && q == #[trigger] neighbor(p, j);
                        assert(enterable(g, before, target, neighbor(here, j)));
                    } else {
                        assert(marked.contains(p));
                        if !marked.contains(q) {
                            assert(pending(waiting).contains(q));
                            if q != here {
                                assert(pending(rest).contains(q));
                            }
                        }
                    }
                }
                if !processed.visited().contains(seed) {
                    assert(pending(rest).contains(seed));
                }
            }
        } else {
            proof {
                assert forall|p: Point, q: Point|
                    processed.visited().contains(p) && !before.contains(p) && #[trigger] adjacent(
                        p,
                        q,
                    ) && enterable(g, before, target, q) implies processed.visited().contains(q)
                    || pending(queue@).contains(q) by {
                    if !marked.contains(q) {
                        assert(pending(waiting).contains(q));
                        assert(pending(rest).contains(q));
                    }
                }
            }
        }
    }

    proof {
        let marked = processed.visited();
        assert(marked.contains(seed)) by {
            if pending(queue@).contains(seed) {
                let i = choose|i: int|
                    0 <= i < queue@.len() && point_of(#[trigger] queue@[i]) == seed;
            }
        }
        let claimed = marked.difference(before);
        if before.contains(seed) {
            assert(fill =~= Set::<Point>::empty());
            assert(claimed =~= Set::<Point>::empty());
        } else {
            assert forall|p: Point, q: Point|
                claimed.contains(p) && #[trigger] adjacent(p, q) && enterable(
                    g,
                    before,
                    target,
                    q,
                ) implies claimed.contains(q) by {
                if pending(queue@).contains(q) {
                    let i = choose|i: int|
                        0 <= i < queue@.len() && point_of(#[trigger] queue@[i]) == q;
                }
            }
            lemma_fill_within_closed(g, before, target, seed, claimed);
            assert(claimed =~= fill);
        }
        assert(marked =~= before.union(fill));
        let covered = fill.insert(seed);
        assert(covered.contains(left) && covered.contains(top) && covered.contains(right)
            && covered.contains(bottom));
        assert(is_bounding_box(covered, (min_x, min_y, max_x, max_y)));
    }
    (min_x, min_y, max_x, max_y)
}

} // verus!
