use vstd::prelude::*;

verus! {

/// The value used for each axis of a Position.
pub type Distance = usize;

/// A 2D index/position for the grids.
pub type Position = (Distance, Distance);

/// Whether a position lies inside a `width` by `height` grid.
pub open spec fn in_bounds(width: usize, height: usize, p: Position) -> bool {
    p.0 < width && p.1 < height
}

/// Chebyshev distance: the minimum number of 8-directional unit moves between
/// two positions, ignoring obstacles. A diagonal step advances both axes at
/// once, so the distance is the larger of the two axis gaps.
pub open spec fn chebyshev(a: Position, b: Position) -> int {
    let dx = if a.0 >= b.0 { a.0 - b.0 } else { b.0 - a.0 };
    let dy = if a.1 >= b.1 { a.1 - b.1 } else { b.1 - a.1 };
    if dx >= dy { dx } else { dy }
}

/// Manhattan ("diagonal-less") distance: the sum of the two axis gaps.
pub open spec fn manhattan(a: Position, b: Position) -> int {
    let dx = if a.0 >= b.0 { a.0 - b.0 } else { b.0 - a.0 };
    let dy = if a.1 >= b.1 { a.1 - b.1 } else { b.1 - a.1 };
    dx + dy
}

/// Two distinct cells that are adjacent under 8-directional movement.
pub open spec fn adjacent(a: Position, b: Position) -> bool {
    chebyshev(a, b) == 1
}

/// The in-bounds neighbours of `p`, in the fixed enumeration order used by
/// every grid in this crate: the west column top to bottom, then north, then
/// south, then the east column top to bottom. `p` itself is never included.
pub open spec fn neighbour_seq(width: usize, height: usize, p: Position) -> Seq<Position> {
    let x = p.0;
    let y = p.1;
    (if x > 0 && y > 0 { seq![((x - 1) as usize, (y - 1) as usize)] } else { Seq::empty() })
        + (if x > 0 { seq![((x - 1) as usize, y)] } else { Seq::empty() })
        + (if x > 0 && y + 1 < height { seq![((x - 1) as usize, (y + 1) as usize)] } else { Seq::empty() })
        + (if y > 0 { seq![(x, (y - 1) as usize)] } else { Seq::empty() })
        + (if y + 1 < height { seq![(x, (y + 1) as usize)] } else { Seq::empty() })
        + (if x + 1 < width && y > 0 { seq![((x + 1) as usize, (y - 1) as usize)] } else { Seq::empty() })
        + (if x + 1 < width { seq![((x + 1) as usize, y)] } else { Seq::empty() })
        + (if x + 1 < width && y + 1 < height { seq![((x + 1) as usize, (y + 1) as usize)] } else { Seq::empty() })
}

/// Enumerates the in-bounds neighbours of `position`, diagonals included.
/// The result never contains `position` itself, never contains an
/// out-of-bounds position, and has no duplicates.
pub fn neighbour_positions(width: Distance, height: Distance, position: Position) -> (r: Vec<
    Position,
>)
    requires
        in_bounds(width, height, position),
    ensures
        r@ == neighbour_seq(width, height, position),
        forall|i: int|
            0 <= i < r@.len() ==> r@[i] != position && in_bounds(width, height, #[trigger] r@[i])
                && adjacent(position, r@[i]),
        forall|i: int, j: int| 0 <= i < j < r@.len() ==> r@[i] != r@[j],
{
    let (x, y) = position;
    let mut r: Vec<Position> = Vec::new();
    if x > 0 {
        if y > 0 {
            r.push((x - 1, y - 1));
        }
        r.push((x - 1, y));
        if y + 1 < height {
            r.push((x - 1, y + 1));
        }
    }
    if y > 0 {
        r.push((x, y - 1));
    }
    if y + 1 < height {
        r.push((x, y + 1));
    }
    if x + 1 < width {
        if y > 0 {
            r.push((x + 1, y - 1));
        }
        r.push((x + 1, y));
        if y + 1 < height {
            r.push((x + 1, y + 1));
        }
    }
    assert(r@ =~= neighbour_seq(width, height, position));
    r
}

/// The next cell on a straight 8-directional march from `a` toward `b`:
/// each axis that has not yet reached `b` advances by one.
pub open spec fn step_toward(a: Position, b: Position) -> Position {
    (
        if a.0 < b.0 {
            (a.0 + 1) as usize
        } else if a.0 > b.0 {
            (a.0 - 1) as usize
        } else {
            a.0
        },
        if a.1 < b.1 {
            (a.1 + 1) as usize
        } else if a.1 > b.1 {
            (a.1 - 1) as usize
        } else {
            a.1
        },
    )
}

/// A shortest 8-directional route from `a` to `b`: it marches diagonally
/// until one axis matches, then straight along the other.
pub open spec fn staircase(a: Position, b: Position) -> Seq<Position>
    decreases chebyshev(a, b),
{
    if a == b {
        seq![a]
    } else {
        seq![a] + staircase(step_toward(a, b), b)
    }
}

/// The staircase from `a` to `b` is a valid shortest path: it starts at `a`,
/// ends at `b`, makes exactly `chebyshev(a, b)` moves between adjacent
/// cells, and stays inside any grid that contains both endpoints.
pub proof fn lemma_staircase_valid(width: usize, height: usize, a: Position, b: Position)
    requires
        in_bounds(width, height, a),
        in_bounds(width, height, b),
    ensures
        staircase(a, b).len() == chebyshev(a, b) + 1,
        staircase(a, b)[0] == a,
        staircase(a, b)[staircase(a, b).len() - 1] == b,
        forall|i: int|
            0 <= i < staircase(a, b).len() ==> in_bounds(width, height, #[trigger] staircase(a, b)[i]),
        forall|i: int|
            1 <= i < staircase(a, b).len() ==> adjacent(staircase(a, b)[i - 1], #[trigger] staircase(
                a,
                b,
            )[i]),
    decreases chebyshev(a, b),
{
    if a != b {
        let n = step_toward(a, b);
        lemma_staircase_valid(width, height, n, b);
        let p = staircase(a, b);
        let rest = staircase(n, b);
        assert(p == seq![a] + rest);
        assert forall|i: int| 0 <= i < p.len() implies in_bounds(width, height, #[trigger] p[i]) by {
            if i > 0 {
                assert(p[i] == rest[i - 1]);
            }
        }
        assert forall|i: int| 1 <= i < p.len() implies adjacent(p[i - 1], #[trigger] p[i]) by {
            if i == 1 {
                assert(p[1] == rest[0]);
                assert(rest[0] == n);
                assert(adjacent(a, n));
            } else {
                assert(p[i] == rest[i - 1] && p[i - 1] == rest[i - 2]);
            }
        }
    }
}

/// The neighbour enumeration is complete: every in-bounds position adjacent
/// to `p` appears in it.
pub proof fn lemma_neighbour_seq_complete(width: usize, height: usize, p: Position, q: Position)
    requires
        in_bounds(width, height, p),
        in_bounds(width, height, q),
        adjacent(p, q),
    ensures
        neighbour_seq(width, height, p).contains(q),
{
    let x = p.0;
    let y = p.1;
    let s = neighbour_seq(width, height, p);
    let l0: int = if x > 0 && y > 0 { 1 } else { 0 };
    let l1: int = if x > 0 { 1 } else { 0 };
    let l2: int = if x > 0 && y + 1 < height { 1 } else { 0 };
    let l3: int = if y > 0 { 1 } else { 0 };
    let l4: int = if y + 1 < height { 1 } else { 0 };
    let l5: int = if x + 1 < width && y > 0 { 1 } else { 0 };
    let l6: int = if x + 1 < width { 1 } else { 0 };
    if q.0 + 1 == x {
        if q.1 + 1 == y {
            assert(s[0] == q);
        } else if q.1 == y {
            assert(s[l0] == q);
        } else {
            assert(s[l0 + l1] == q);
        }
    } else if q.0 == x {
        if q.1 + 1 == y {
            assert(s[l0 + l1 + l2] == q);
        } else {
            assert(s[l0 + l1 + l2 + l3] == q);
        }
    } else {
        if q.1 + 1 == y {
            assert(s[l0 + l1 + l2 + l3 + l4] == q);
        } else if q.1 == y {
            assert(s[l0 + l1 + l2 + l3 + l4 + l5] == q);
        } else {
            assert(s[l0 + l1 + l2 + l3 + l4 + l5 + l6] == q);
        }
    }
}

/// Computes the Chebyshev distance between two positions.
pub fn chebyshev_distance(a: Position, b: Position) -> (r: Distance)
    ensures
        r == chebyshev(a, b),
{
    let dx = if a.0 >= b.0 {
        a.0 - b.0
    } else {
        b.0 - a.0
    };
    let dy = if a.1 >= b.1 {
        a.1 - b.1
    } else {
        b.1 - a.1
    };
    if dx >= dy {
        dx
    } else {
        dy
    }
}

/// Compares two positions.
pub fn pos_eq(a: Position, b: Position) -> (r: bool)
    ensures
        r == (a == b),
{
    a.0 == b.0 && a.1 == b.1
}

/// Index of a position in a dense row-major cell store of the given width.
pub open spec fn row_major_index(width: usize, p: Position) -> int {
    p.1 * width + p.0
}

/// Within one grid, distinct in-bounds positions have distinct row-major indices.
pub proof fn lemma_row_major_index_injective(
    width: usize,
    height: usize,
    p: Position,
    q: Position,
)
    requires
        in_bounds(width, height, p),
        in_bounds(width, height, q),
        row_major_index(width, p) == row_major_index(width, q),
    ensures
        p == q,
{
    assert(p.0 == q.0 && p.1 == q.1) by (nonlinear_arith)
        requires
            p.0 < width,
            q.0 < width,
            p.1 * width + p.0 == q.1 * width + q.0,
    ;
}

/// The row-major index of an in-bounds position lies inside the cell store.
pub proof fn lemma_row_major_index_in_range(width: usize, height: usize, p: Position)
    requires
        in_bounds(width, height, p),
    ensures
        0 <= row_major_index(width, p) < width * height,
{
    assert(0 <= p.1 * width + p.0 < width * height) by (nonlinear_arith)
        requires
            p.0 < width,
            p.1 < height,
    ;
}

/// A graph of positions: each position has a set of neighbouring positions
/// and an abstract lower bound on the move count between two positions.
pub trait Grid<IndexType> {
    /// Whether `index` is a position this grid can answer neighbour queries
    /// for.
    spec fn valid_index(&self, index: IndexType) -> bool;

    /// All neighbours of `index`; never includes `index` itself.
    fn neighbours(&self, index: IndexType) -> (r: Vec<IndexType>)
        requires
            self.valid_index(index),
        ensures
            forall|i: int| 0 <= i < r@.len() ==> (#[trigger] r@[i]) != index,
    ;

    /// A lower bound on the number of neighbour connections that must be
    /// traversed to get from `a` to `b`.
    fn distance(&self, a: IndexType, b: IndexType) -> u32 {
        0
    }
}

} // verus!
