//! The mathematical model of a pixel grid: its size, the color at each
//! coordinate, which colors count as background and which pixels are
//! neighbors.

use vstd::prelude::*;

verus! {

/// A coordinate `(x, y)`.
pub type Point = (int, int);

/// A raster of RGBA pixels. `colors` is read only at coordinates inside the
/// grid; each color is a sequence of four channels.
pub struct Grid {
    pub width: nat,
    pub height: nat,
    pub colors: Map<Point, Seq<u8>>,
}

impl Grid {
    /// Whether `p` lies inside the grid.
    pub open spec fn contains(self, p: Point) -> bool {
        0 <= p.0 < self.width && 0 <= p.1 < self.height
    }

    /// The color at `p`.
    pub open spec fn color(self, p: Point) -> Seq<u8> {
        self.colors[p]
    }

    /// Whether `p` lies inside the grid and is not background.
    pub open spec fn is_foreground(self, p: Point) -> bool {
        self.contains(p) && !is_background(self.color(p))
    }
}

/// Whether two grids have the same size and the same color at every
/// coordinate inside.
pub open spec fn same_pixels(g: Grid, h: Grid) -> bool {
    &&& g.width == h.width
    &&& g.height == h.height
    &&& forall|p: Point| g.contains(p) ==> #[trigger] g.color(p) == h.color(p)
}

/// Pure white and pure black are background. Only red, green and blue
/// decide; the alpha channel is not looked at.
pub open spec fn is_background(color: Seq<u8>) -> bool {
    ||| color[0] == 255 && color[1] == 255 && color[2] == 255
    ||| color[0] == 0 && color[1] == 0 && color[2] == 0
}

/// Two coordinates are adjacent when they share an edge: they differ by
/// exactly one step along exactly one axis. Diagonal contact does not count.
pub open spec fn adjacent(p: Point, q: Point) -> bool {
    ||| p.0 == q.0 && (p.1 == q.1 + 1 || q.1 == p.1 + 1)
    ||| p.1 == q.1 && (p.0 == q.0 + 1 || q.0 == p.0 + 1)
}

/// The four neighbors of `p` in the order a fill looks at them: below,
/// right, above, left.
pub open spec fn neighbor(p: Point, k: int) -> Point {
    if k == 0 {
        (p.0, p.1 + 1)
    } else if k == 1 {
        (p.0 + 1, p.1)
    } else if k == 2 {
        (p.0, p.1 - 1)
    } else {
        (p.0 - 1, p.1)
    }
}

/// The adjacent coordinates are exactly the four neighbors.
pub proof fn lemma_adjacent_is_neighbor(p: Point, q: Point)
    ensures
        adjacent(p, q) <==> exists|k: int| 0 <= k < 4 && q == #[trigger] neighbor(p, k),
{
    if adjacent(p, q) {
        if q == neighbor(p, 0) {
        } else if q == neighbor(p, 1) {
        } else if q == neighbor(p, 2) {
        } else {
            assert(q == neighbor(p, 3));
        }
    }
}

} // verus!
