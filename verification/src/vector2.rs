//! Grid coordinates.

use vstd::prelude::*;

verus! {

/// A cell position on the grid: `x` is the row, `y` the column.
#[derive(Clone, Copy, PartialEq, Eq, Structural, Hash, Debug)]
pub struct Vector2 {
    pub x: usize,
    pub y: usize,
}

/// Absolute difference of two integers.
pub open spec fn gap(a: int, b: int) -> int {
    if a <= b {
        b - a
    } else {
        a - b
    }
}

/// Manhattan distance between two positions.
pub open spec fn manhattan(a: Vector2, b: Vector2) -> int {
    gap(a.x as int, b.x as int) + gap(a.y as int, b.y as int)
}

/// Two positions are 4-adjacent: they differ by one step along one axis.
pub open spec fn adjacent(a: Vector2, b: Vector2) -> bool {
    manhattan(a, b) == 1
}

/// Each position of the sequence is adjacent to the next.
pub open spec fn stepwise(path: Seq<Vector2>) -> bool {
    forall|i: int, j: int|
        0 <= i && j == i + 1 && j < path.len() ==> adjacent(#[trigger] path[i], #[trigger] path[j])
}

/// The position lies on a grid of `rows` by `columns` cells.
pub open spec fn on_grid(p: Vector2, rows: usize, columns: usize) -> bool {
    p.x < rows && p.y < columns
}

/// The 4-neighbours of `p` that lie on the grid, in the order up, down, left, right
/// (that is: row before, row after, column before, column after).
pub open spec fn neighbours_of(p: Vector2, rows: usize, columns: usize) -> Seq<Vector2> {
    let up = if p.x > 0 {
        seq![Vector2 { x: (p.x - 1) as usize, y: p.y }]
    } else {
        Seq::empty()
    };
    let down = if p.x + 1 < rows {
        seq![Vector2 { x: (p.x + 1) as usize, y: p.y }]
    } else {
        Seq::empty()
    };
    let left = if p.y > 0 {
        seq![Vector2 { x: p.x, y: (p.y - 1) as usize }]
    } else {
        Seq::empty()
    };
    let right = if p.y + 1 < columns {
        seq![Vector2 { x: p.x, y: (p.y + 1) as usize }]
    } else {
        Seq::empty()
    };
    up + down + left + right
}

impl Vector2 {
    /// The position in row `x` and column `y`.
    pub fn new(x: usize, y: usize) -> (v: Self)
        ensures
            v.x == x,
            v.y == y,
    {
        Self { x, y }
    }

    /// Row and column.
    pub fn as_tuple(&self) -> (t: (usize, usize))
        ensures
            t.0 == self.x,
            t.1 == self.y,
    {
        (self.x, self.y)
    }

    /// Manhattan distance to `other`.
    pub fn manhattan_distance(&self, other: Self) -> (d: u32)
        requires
            manhattan(*self, other) <= u32::MAX,
        ensures
            d == manhattan(*self, other),
    {
        let dx: usize = if self.x <= other.x {
            other.x - self.x
        } else {
            self.x - other.x
        };
        let dy: usize = if self.y <= other.y {
            other.y - self.y
        } else {
            self.y - other.y
        };
        (dx + dy) as u32
    }

    /// The neighbours of this position on a grid of `rows` by `columns` cells.
    pub fn neighbours(&self, rows: usize, columns: usize) -> (out: Vec<Self>)
        ensures
            out@ == neighbours_of(*self, rows, columns),
    {
        let mut out: Vec<Self> = Vec::with_capacity(4);
        if self.x > 0 {
            out.push(Self::new(self.x - 1, self.y));
        }
        if rows > 0 && self.x < rows - 1 {
            out.push(Self::new(self.x + 1, self.y));
        }
        if self.y > 0 {
            out.push(Self::new(self.x, self.y - 1));
        }
        if columns > 0 && self.y < columns - 1 {
            out.push(Self::new(self.x, self.y + 1));
        }
        out
    }

    /// Component-wise sum.
    pub fn add(self, rhs: Self) -> (v: Self)
        requires
            self.x + rhs.x <= usize::MAX,
            self.y + rhs.y <= usize::MAX,
        ensures
            v.x == self.x + rhs.x,
            v.y == self.y + rhs.y,
    {
        Self::new(self.x + rhs.x, self.y + rhs.y)
    }
}

/// A position is a neighbour of `p` exactly when it is adjacent to `p` and on the grid.
#[verifier::rlimit(40)]
pub proof fn lemma_neighbours_are_adjacent(p: Vector2, rows: usize, columns: usize, q: Vector2)
    requires
        on_grid(p, rows, columns),
    ensures
        neighbours_of(p, rows, columns).contains(q) <==> (adjacent(p, q) && on_grid(
            q,
            rows,
            columns,
        )),
{
    let n = neighbours_of(p, rows, columns);
    if adjacent(p, q) && on_grid(q, rows, columns) {
        if q.x + 1 == p.x {
            assert(n[0] == q);
        } else if q.x == p.x + 1 {
            let i = if p.x > 0 { 1int } else { 0int };
            assert(n[i] == q);
        } else if q.y + 1 == p.y {
            let i = (if p.x > 0 { 1int } else { 0int }) + (if p.x + 1 < rows { 1int } else { 0int });
            assert(n[i] == q);
        } else {
            let i = (if p.x > 0 { 1int } else { 0int }) + (if p.x + 1 < rows { 1int } else { 0int })
                + (if p.y > 0 { 1int } else { 0int });
            assert(n[i] == q);
        }
    }
    if n.contains(q) {
        let up: Seq<Vector2> = if p.x > 0 {
            seq![Vector2 { x: (p.x - 1) as usize, y: p.y }]
        } else {
            Seq::empty()
        };
        let down: Seq<Vector2> = if p.x + 1 < rows {
            seq![Vector2 { x: (p.x + 1) as usize, y: p.y }]
        } else {
            Seq::empty()
        };
        let left: Seq<Vector2> = if p.y > 0 {
            seq![Vector2 { x: p.x, y: (p.y - 1) as usize }]
        } else {
            Seq::empty()
        };
        let right: Seq<Vector2> = if p.y + 1 < columns {
            seq![Vector2 { x: p.x, y: (p.y + 1) as usize }]
        } else {
            Seq::empty()
        };
        let i = choose|i: int| 0 <= i < n.len() && n[i] == q;
        if i < up.len() {
            assert(n[i] == up[i]);
        } else if i < up.len() + down.len() {
            assert(n[i] == down[i - up.len()]);
        } else if i < up.len() + down.len() + left.len() {
            assert(n[i] == left[i - up.len() - down.len()]);
        } else {
            assert(n[i] == right[i - up.len() - down.len() - left.len()]);
        }
    }
}

} // verus!
