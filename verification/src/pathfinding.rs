use vstd::prelude::*;

use crate::grid::{
    adjacent, chebyshev, in_bounds, lemma_neighbour_seq_complete, lemma_row_major_index_in_range,
    lemma_row_major_index_injective, lemma_staircase_valid, manhattan, neighbour_positions,
    neighbour_seq, pos_eq, row_major_index, staircase, Distance, Position,
};

verus! {

broadcast use vstd::seq_lib::lemma_seq_contains_after_push;

/// A fixed-size array of values indexed by an `(x, y)` position, stored
/// densely in row-major order.
pub struct Array2D<Value> {
    width: Distance,
    height: Distance,
    values: Vec<Value>,
}

impl<Value> Array2D<Value> {
    /// The width this array was created with.
    pub closed spec fn spec_width(&self) -> usize {
        self.width
    }

    /// The height this array was created with.
    pub closed spec fn spec_height(&self) -> usize {
        self.height
    }

    /// The cells in row-major order.
    pub closed spec fn cells(&self) -> Seq<Value> {
        self.values@
    }

    /// There is exactly one cell for every in-bounds position.
    pub open spec fn wf(&self) -> bool {
        self.cells().len() == self.spec_width() * self.spec_height()
    }

    /// The value stored at an in-bounds position.
    pub open spec fn spec_at(&self, p: Position) -> Value {
        self.cells()[row_major_index(self.spec_width(), p)]
    }

    /// Constructs an array of the given dimensions with every cell set to a
    /// value produced by `Value::default`.
    pub fn new(width: Distance, height: Distance) -> (r: Self) where Value: Default
        requires
            width * height <= usize::MAX,
        ensures
            r.wf(),
            r.spec_width() == width,
            r.spec_height() == height,
            forall|i: int|
                0 <= i < r.cells().len() ==> call_ensures(Value::default, (), #[trigger] r.cells()[i]),
    {
        let total: usize = width * height;
        let mut values: Vec<Value> = Vec::new();
        let mut i: usize = 0;
        while i < total
            invariant
                i <= total,
                values@.len() == i,
                forall|k: int|
                    0 <= k < i ==> call_ensures(Value::default, (), #[trigger] values@[k]),
            decreases total - i,
        {
            values.push(Value::default());
            i = i + 1;
        }
        Array2D { width, height, values }
    }

    /// The dimensions of this array, as `(width, height)`.
    pub fn len(&self) -> (r: Position)
        ensures
            r == (self.spec_width(), self.spec_height()),
    {
        (self.width, self.height)
    }

    /// The row-major index of an in-bounds position.
    fn inner_index(&self, index: Position) -> (r: usize)
        requires
            self.wf(),
            in_bounds(self.spec_width(), self.spec_height(), index),
        ensures
            r == row_major_index(self.spec_width(), index),
            r < self.cells().len(),
    {
        proof {
            lemma_row_major_index_in_range(self.width, self.height, index);
        }
        // bind the store's length so the index is known to fit in a usize
        let _n = self.values.len();
        let (x, y) = index;
        y * self.width + x
    }

    /// Reads the value at an in-bounds position.
    pub fn get(&self, index: Position) -> (r: &Value)
        requires
            self.wf(),
            in_bounds(self.spec_width(), self.spec_height(), index),
        ensures
            *r == self.spec_at(index),
    {
        let i = self.inner_index(index);
        &self.values[i]
    }

    /// Overwrites the value at an in-bounds position; every other cell and
    /// the dimensions are unchanged.
    pub fn set(&mut self, index: Position, value: Value)
        requires
            old(self).wf(),
            in_bounds(old(self).spec_width(), old(self).spec_height(), index),
        ensures
            final(self).wf(),
            final(self).spec_width() == old(self).spec_width(),
            final(self).spec_height() == old(self).spec_height(),
            final(self).cells() == old(self).cells().update(
                row_major_index(old(self).spec_width(), index),
                value,
            ),
            final(self).spec_at(index) == value,
            forall|q: Position|
                in_bounds(old(self).spec_width(), old(self).spec_height(), q) && q != index
                    ==> final(self).spec_at(q) == old(self).spec_at(q),
    {
        let i = self.inner_index(index);
        self.values.set(i, value);
        proof {
            assert forall|q: Position|
                in_bounds(self.width, self.height, q) && q != index implies self.spec_at(q)
                == old(self).spec_at(q) by {
                lemma_row_major_index_in_range(self.width, self.height, q);
                if row_major_index(self.width, q) == row_major_index(self.width, index) {
                    lemma_row_major_index_injective(self.width, self.height, q, index);
                }
            }
        }
    }

    /// Every cell paired with its position, in row-major order.
    pub fn iter(&self) -> (r: Vec<(Position, Value)>) where Value: Copy
        requires
            self.wf(),
        ensures
            r@.len() == self.cells().len(),
            forall|k: int|
                0 <= k < r@.len() ==> {
                    let (p, v) = #[trigger] r@[k];
                    &&& in_bounds(self.spec_width(), self.spec_height(), p)
                    &&& row_major_index(self.spec_width(), p) == k
                    &&& v == self.spec_at(p)
                },
    {
        let mut r: Vec<(Position, Value)> = Vec::new();
        let mut y: usize = 0;
        while y < self.height
            invariant
                self.wf(),
                y <= self.height,
                r@.len() == y * self.spec_width(),
                forall|k: int|
                    0 <= k < r@.len() ==> {
                        let (p, v) = #[trigger] r@[k];
                        &&& in_bounds(self.spec_width(), self.spec_height(), p)
                        &&& row_major_index(self.spec_width(), p) == k
                        &&& v == self.spec_at(p)
                    },
            decreases self.height - y,
        {
            let mut x: usize = 0;
            while x < self.width
                invariant
                    self.wf(),
                    y < self.height,
                    x <= self.width,
                    r@.len() == y * self.spec_width() + x,
                    forall|k: int|
                        0 <= k < r@.len() ==> {
                            let (p, v) = #[trigger] r@[k];
                            &&& in_bounds(self.spec_width(), self.spec_height(), p)
                            &&& row_major_index(self.spec_width(), p) == k
                            &&& v == self.spec_at(p)
                        },
                decreases self.width - x,
            {
                proof {
                    lemma_row_major_index_in_range(self.width, self.height, (x, y));
                }
                r.push(((x, y), *self.get((x, y))));
                x = x + 1;
            }
            proof {
                assert(y * self.spec_width() + self.spec_width() == (y + 1)
                    * self.spec_width()) by (nonlinear_arith);
            }
            y = y + 1;
        }
        proof {
            assert(r@.len() == self.cells().len()) by (nonlinear_arith)
                requires
                    r@.len() == self.spec_height() * self.spec_width(),
                    self.cells().len() == self.spec_width() * self.spec_height(),
            ;
        }
        r
    }
}

/// The search state of one grid cell during an A* run.
#[derive(Clone, Copy, Debug, PartialEq, Eq)]
pub enum AStarCellState {
    /// Not yet reached by the search.
    Free,
    /// Permanently impassable; never entered.
    Blocked,
    /// Reached during the search; records the predecessor cell used to reach
    /// it. Once a cell carries this state it never changes again.
    VisitedFrom(Position),
}

impl Default for AStarCellState {
    /// Cells start out unexplored.
    fn default() -> (r: Self)
        ensures
            r == AStarCellState::Free,
    {
        AStarCellState::Free
    }
}

/// Pathfinding data associated with one grid cell.
#[derive(Clone, Copy, Debug)]
pub struct AStarCell {
    state: AStarCellState,
}

impl AStarCell {
    /// The search state stored in this cell.
    pub closed spec fn spec_state(&self) -> AStarCellState {
        self.state
    }

    /// Reads the search state stored in this cell.
    pub fn state(&self) -> (r: AStarCellState)
        ensures
            r == self.spec_state(),
    {
        self.state
    }
}

impl Default for AStarCell {
    /// Cells start out unexplored.
    fn default() -> (r: Self)
        ensures
            r.spec_state() == AStarCellState::Free,
    {
        AStarCell { state: AStarCellState::Free }
    }
}

/// A potential path: one frontier entry of the A* search.
pub struct AStarPath {
    /// The position at the end of this path.
    pub head: Position,
    /// The exact cost (number of moves) this path has taken from the origin.
    pub cost_from_origin: Distance,
    /// The heuristic's lower bound on the cost remaining to the target:
    /// the Chebyshev distance from `head` to the target.
    pub min_cost_to_target: Distance,
    /// A secondary tie-break metric: the diagonal-less (Manhattan) distance
    /// from `head` to the target.
    pub diagonless_distance_to_target: Distance,
    /// The final tie-break: the insertion sequence number this entry was
    /// created with, unique within one pathfinder.
    pub order: usize,
}

impl AStarPath {
    /// The A* f-score: cost so far plus the heuristic lower bound on the
    /// cost remaining. Dropping the first addend would give Dijkstra-like
    /// behaviour, dropping the second breadth-first search.
    pub open spec fn f_cost(&self) -> int {
        self.cost_from_origin + self.min_cost_to_target
    }

    /// Computes the f-score.
    fn min_cost(&self) -> (r: Distance)
        requires
            self.cost_from_origin + self.min_cost_to_target <= usize::MAX,
        ensures
            r == self.f_cost(),
    {
        self.cost_from_origin + self.min_cost_to_target
    }
}

/// The exploration priority between two frontier entries: `a` is explored no
/// later than `b`. Entries are ranked by ascending f-score, ties broken by
/// ascending heuristic-to-target, then ascending diagonal-less distance to
/// the target, then ascending insertion sequence number. Because sequence
/// numbers are unique within a pathfinder, this orders its frontier totally.
pub open spec fn prio_le(a: AStarPath, b: AStarPath) -> bool {
    if a.f_cost() != b.f_cost() {
        a.f_cost() < b.f_cost()
    } else if a.min_cost_to_target != b.min_cost_to_target {
        a.min_cost_to_target < b.min_cost_to_target
    } else if a.diagonless_distance_to_target != b.diagonless_distance_to_target {
        a.diagonless_distance_to_target < b.diagonless_distance_to_target
    } else {
        a.order <= b.order
    }
}

/// Whether `e` is an entry of `f` that ranks no worse than every entry of `f`.
pub open spec fn is_best_in(f: Seq<AStarPath>, e: AStarPath) -> bool {
    &&& f.contains(e)
    &&& forall|i: int| 0 <= i < f.len() ==> prio_le(e, #[trigger] f[i])
}

/// Decides the exploration priority between two frontier entries.
fn prio_before(a: &AStarPath, b: &AStarPath) -> (r: bool)
    requires
        a.cost_from_origin + a.min_cost_to_target <= usize::MAX,
        b.cost_from_origin + b.min_cost_to_target <= usize::MAX,
    ensures
        r == prio_le(*a, *b),
{
    let fa = a.min_cost();
    let fb = b.min_cost();
    if fa != fb {
        fa < fb
    } else if a.min_cost_to_target != b.min_cost_to_target {
        a.min_cost_to_target < b.min_cost_to_target
    } else if a.diagonless_distance_to_target != b.diagonless_distance_to_target {
        a.diagonless_distance_to_target < b.diagonless_distance_to_target
    } else {
        a.order <= b.order
    }
}

/// How many cells of `cells` have been visited by the search.
pub closed spec fn count_visited(cells: Seq<AStarCell>) -> nat
    decreases cells.len(),
{
    if cells.len() == 0 {
        0
    } else {
        count_visited(cells.drop_last()) + (if cells.last().spec_state() is VisitedFrom {
            1nat
        } else {
            0
        })
    }
}

/// At most every cell is visited.
pub proof fn lemma_count_visited_le_len(cells: Seq<AStarCell>)
    ensures
        count_visited(cells) <= cells.len(),
    decreases cells.len(),
{
    if cells.len() > 0 {
        lemma_count_visited_le_len(cells.drop_last());
    }
}

/// Marking one unvisited cell as visited increases the visited count by one.
pub proof fn lemma_count_visited_update(cells: Seq<AStarCell>, i: int, c: AStarCell)
    requires
        0 <= i < cells.len(),
        !(cells[i].spec_state() is VisitedFrom),
        c.spec_state() is VisitedFrom,
    ensures
        count_visited(cells.update(i, c)) == count_visited(cells) + 1,
    decreases cells.len(),
{
    let updated = cells.update(i, c);
    if i == cells.len() - 1 {
        assert(updated.drop_last() =~= cells.drop_last());
    } else {
        assert(updated.drop_last() =~= cells.drop_last().update(i, c));
        assert(updated.last() == cells.last());
        lemma_count_visited_update(cells.drop_last(), i, c);
    }
}

/// A store without a single visited cell has a visited count of zero.
pub proof fn lemma_count_visited_zero(cells: Seq<AStarCell>)
    requires
        forall|i: int| 0 <= i < cells.len() ==> !((#[trigger] cells[i]).spec_state() is VisitedFrom),
    ensures
        count_visited(cells) == 0,
    decreases cells.len(),
{
    if cells.len() > 0 {
        lemma_count_visited_zero(cells.drop_last());
    }
}

/// Overwriting an unvisited cell with another unvisited value leaves the
/// visited count unchanged.
pub proof fn lemma_count_visited_update_unvisited(cells: Seq<AStarCell>, i: int, c: AStarCell)
    requires
        0 <= i < cells.len(),
        !(cells[i].spec_state() is VisitedFrom),
        !(c.spec_state() is VisitedFrom),
    ensures
        count_visited(cells.update(i, c)) == count_visited(cells),
    decreases cells.len(),
{
    let updated = cells.update(i, c);
    if i == cells.len() - 1 {
        assert(updated.drop_last() =~= cells.drop_last());
    } else {
        assert(updated.drop_last() =~= cells.drop_last().update(i, c));
        assert(updated.last() == cells.last());
        lemma_count_visited_update_unvisited(cells.drop_last(), i, c);
    }
}

/// Why a pathfinder could not be constructed.
#[derive(Clone, Copy, Debug, PartialEq, Eq, Structural)]
pub enum BuildError {
    /// The origin, the target, or a blocked cell lies outside the grid.
    PositionOutOfBounds,
    /// The origin itself is a blocked cell, so no path can ever leave it.
    OriginBlocked,
}

/// Whether some construction input lies outside a `width` by `height` grid.
pub open spec fn construction_out_of_bounds(
    width: usize,
    height: usize,
    origin: Position,
    target: Position,
    blocked: Seq<Position>,
) -> bool {
    ||| !in_bounds(width, height, origin)
    ||| !in_bounds(width, height, target)
    ||| exists|i: int| 0 <= i < blocked.len() && !in_bounds(width, height, #[trigger] blocked[i])
}

/// A step-wise A* search for a shortest path from an origin cell to a target
/// cell over an 8-connected grid with blocked cells.
pub struct AStarPathfinder {
    /// Whether this search is still running.
    working: bool,
    /// The width of the grid in cells.
    width: Distance,
    /// The height of the grid in cells.
    height: Distance,
    /// The point at which the paths start.
    origin: Position,
    /// The point the paths are trying to find.
    target: Position,
    /// Pathfinding data associated with each cell of the grid.
    data: Array2D<AStarCell>,
    /// Paths that are still being explored.
    frontier: Vec<AStarPath>,
    /// The insertion sequence number the next frontier entry will carry.
    next_order: usize,
    /// How many moves from the origin each reached cell is: the depth of each
    /// cell in the tree of backpointers rooted at the origin.
    rank: Ghost<Map<Position, nat>>,
}

impl AStarPathfinder {
    /// Whether this search is still running.
    pub closed spec fn spec_working(&self) -> bool {
        self.working
    }

    /// The width of the grid in cells.
    pub closed spec fn spec_width(&self) -> usize {
        self.width
    }

    /// The height of the grid in cells.
    pub closed spec fn spec_height(&self) -> usize {
        self.height
    }

    /// The point at which the paths start.
    pub closed spec fn spec_origin(&self) -> Position {
        self.origin
    }

    /// The point the paths are trying to find.
    pub closed spec fn spec_target(&self) -> Position {
        self.target
    }

    /// The per-cell search data.
    pub closed spec fn spec_data(&self) -> Array2D<AStarCell> {
        self.data
    }

    /// The paths that are still being explored.
    pub closed spec fn frontier_view(&self) -> Seq<AStarPath> {
        self.frontier@
    }

    /// The insertion sequence number the next frontier entry will carry.
    pub closed spec fn spec_next_order(&self) -> usize {
        self.next_order
    }

    /// How many moves from the origin each reached cell is.
    pub closed spec fn rank_of(&self) -> Map<Position, nat> {
        self.rank@
    }

    /// The search state of the cell at `p`.
    pub open spec fn cell(&self, p: Position) -> AStarCellState {
        self.spec_data().spec_at(p).spec_state()
    }

    /// What every frontier entry satisfies: its head is the origin or a
    /// reached cell, its cost is that cell's distance from the origin, and
    /// its two tie-break metrics are the two distances from its head to the
    /// target.
    pub open spec fn entry_wf(&self, e: AStarPath) -> bool {
        &&& in_bounds(self.spec_width(), self.spec_height(), e.head)
        &&& e.head == self.spec_origin() || self.cell(e.head) is VisitedFrom
        &&& self.rank_of().contains_key(e.head)
        &&& e.cost_from_origin == self.rank_of()[e.head]
        &&& e.min_cost_to_target == chebyshev(e.head, self.spec_target())
        &&& e.diagonless_distance_to_target == manhattan(e.head, self.spec_target())
        &&& e.order < self.spec_next_order()
    }

    /// What every reached cell satisfies: its recorded predecessor is an
    /// adjacent cell one move closer to the origin (or the origin itself),
    /// so backpointer chains are acyclic and end at the origin.
    pub open spec fn cell_wf(&self, p: Position) -> bool {
        self.cell(p) matches AStarCellState::VisitedFrom(q) ==> {
            &&& p != self.spec_origin()
            &&& in_bounds(self.spec_width(), self.spec_height(), q)
            &&& adjacent(q, p)
            &&& q == self.spec_origin() || self.cell(q) is VisitedFrom
            &&& self.rank_of().contains_key(p)
            &&& self.rank_of().contains_key(q)
            &&& self.rank_of()[p] == self.rank_of()[q] + 1
            &&& self.rank_of()[p] <= count_visited(self.spec_data().cells())
        }
    }

    /// `c` is still on the frontier's agenda, or fully expanded: either some
    /// frontier entry stands at `c`, or no unexplored cell other than the
    /// origin borders `c`. Every reached cell is settled, so once the
    /// frontier is exhausted the reached region has no unexplored border.
    pub open spec fn settled(&self, c: Position) -> bool {
        ||| exists|k: int|
            0 <= k < self.frontier_view().len() && (#[trigger] self.frontier_view()[k]).head == c
        ||| forall|q: Position|
            in_bounds(self.spec_width(), self.spec_height(), q) && adjacent(c, q) && q
                != self.spec_origin() ==> !((#[trigger] self.cell(q)) is Free)
    }

    /// The internal invariant of a pathfinder. Established by construction
    /// and preserved by every operation.
    pub open spec fn wf(&self) -> bool {
        &&& self.spec_data().wf()
        &&& self.spec_data().spec_width() == self.spec_width()
        &&& self.spec_data().spec_height() == self.spec_height()
        &&& self.spec_width() * self.spec_height() <= usize::MAX / 2
        &&& in_bounds(self.spec_width(), self.spec_height(), self.spec_origin())
        &&& in_bounds(self.spec_width(), self.spec_height(), self.spec_target())
        &&& self.cell(self.spec_origin()) is Free
        &&& self.rank_of().contains_key(self.spec_origin())
        &&& self.rank_of()[self.spec_origin()] == 0
        &&& forall|p: Position|
            in_bounds(self.spec_width(), self.spec_height(), p) ==> #[trigger] self.cell_wf(p)
        &&& forall|i: int|
            0 <= i < self.frontier_view().len() ==> self.entry_wf(#[trigger] self.frontier_view()[i])
        &&& forall|i: int, j: int|
            0 <= i < j < self.frontier_view().len() ==> self.frontier_view()[i].order
                != self.frontier_view()[j].order
        &&& self.spec_next_order() <= count_visited(self.spec_data().cells()) + 1
        &&& forall|c: Position|
            in_bounds(self.spec_width(), self.spec_height(), c) && (c == self.spec_origin()
                || self.cell(c) is VisitedFrom) ==> #[trigger] self.settled(c)
        &&& (self.spec_target() == self.spec_origin() || self.cell(self.spec_target())
            is VisitedFrom) ==> exists|k: int|
            0 <= k < self.frontier_view().len() && (#[trigger] self.frontier_view()[k]).head
                == self.spec_target()
        &&& !self.spec_working() ==> (self.frontier_view().len() == 0 || exists|e: AStarPath|
            is_best_in(self.frontier_view(), e) && e.head == self.spec_target())
    }

    /// How much work is left before the search must stop: an upper bound on
    /// the number of further frontier pops.
    pub open spec fn measure(&self) -> int {
        self.frontier_view().len() + self.spec_data().cells().len() - count_visited(
            self.spec_data().cells(),
        )
    }

    /// Minimum distance between two points with 8-way movement allowed: the
    /// Chebyshev distance.
    pub fn min_distance(a: Position, b: Position) -> (r: Distance)
        ensures
            r == chebyshev(a, b),
    {
        let dx = if a.0 >= b.0 {
            a.0 - b.0
        } else {
            b.0 - a.0
        };
        let dy = if a.1 >= b.1 {
            a.1 - b.1
        } else {
            b.1 - a.1
        };
        if dx >= dy {
            dx
        } else {
            dy
        }
    }

    /// Distance between two points when diagonal moves are not counted as
    /// shortcuts: the Manhattan distance.
    pub fn diagonless_distance(a: Position, b: Position) -> (r: Distance)
        requires
            manhattan(a, b) <= usize::MAX,
        ensures
            r == manhattan(a, b),
    {
        let dx = if a.0 >= b.0 {
            a.0 - b.0
        } else {
            b.0 - a.0
        };
        let dy = if a.1 >= b.1 {
            a.1 - b.1
        } else {
            b.1 - a.1
        };
        dx + dy
    }

    /// Whether this search is still running: true until either the target is
    /// popped from the frontier or the frontier is exhausted.
    pub fn working(&self) -> (r: bool)
        ensures
            r == self.spec_working(),
    {
        self.working
    }

    /// The per-cell search data, for rendering between steps.
    pub fn data(&self) -> (r: &Array2D<AStarCell>)
        ensures
            *r == self.spec_data(),
    {
        &self.data
    }

    /// Constructs a pathfinder for a `width` by `height` grid that will
    /// search from `origin` to `target` around the `blocked` cells. Fails
    /// fast if any given position lies outside the grid or if the origin
    /// itself is blocked.
    pub fn new(
        width: Distance,
        height: Distance,
        origin: Position,
        target: Position,
        blocked: &Vec<Position>,
    ) -> (r: Result<AStarPathfinder, BuildError>)
        requires
            width * height <= usize::MAX / 2,
        ensures
            r is Ok <==> (!construction_out_of_bounds(width, height, origin, target, blocked@)
                && !blocked@.contains(origin)),
            r matches Err(e) ==> if construction_out_of_bounds(
                width,
                height,
                origin,
                target,
                blocked@,
            ) {
                e == BuildError::PositionOutOfBounds
            } else {
                e == BuildError::OriginBlocked
            },
            r matches Ok(pf) ==> {
                &&& pf.wf()
                &&& pf.spec_working()
                &&& pf.spec_width() == width
                &&& pf.spec_height() == height
                &&& pf.spec_origin() == origin
                &&& pf.spec_target() == target
                &&& forall|p: Position|
                    in_bounds(width, height, p) ==> #[trigger] pf.cell(p) == (if blocked@.contains(
                        p,
                    ) {
                        AStarCellState::Blocked
                    } else {
                        AStarCellState::Free
                    })
                &&& pf.frontier_view() =~= seq![
                    AStarPath {
                        head: origin,
                        cost_from_origin: 0,
                        min_cost_to_target: chebyshev(origin, target) as usize,
                        diagonless_distance_to_target: manhattan(origin, target) as usize,
                        order: 0,
                    },
                ]
                &&& pf.spec_next_order() == 1
                &&& pf.rank_of() == Map::<Position, nat>::empty().insert(origin, 0nat)
            },
    {
        if !(origin.0 < width && origin.1 < height) || !(target.0 < width && target.1 < height) {
            return Err(BuildError::PositionOutOfBounds);
        }
        let mut i: usize = 0;
        while i < blocked.len()
            invariant
                i <= blocked@.len(),
                forall|j: int| 0 <= j < i ==> in_bounds(width, height, #[trigger] blocked@[j]),
            decreases blocked@.len() - i,
        {
            let b = blocked[i];
            if !(b.0 < width && b.1 < height) {
                return Err(BuildError::PositionOutOfBounds);
            }
            i = i + 1;
        }
        let mut i: usize = 0;
        while i < blocked.len()
            invariant
                i <= blocked@.len(),
                in_bounds(width, height, origin),
                in_bounds(width, height, target),
                forall|j: int| 0 <= j < blocked@.len() ==> in_bounds(width, height, #[trigger] blocked@[j]),
                forall|j: int| 0 <= j < i ==> blocked@[j] != origin,
            decreases blocked@.len() - i,
        {
            if pos_eq(blocked[i], origin) {
                assert(blocked@.contains(origin));
                return Err(BuildError::OriginBlocked);
            }
            i = i + 1;
        }
        assert(!blocked@.contains(origin));

        proof {
            assert(width * height <= usize::MAX) by (nonlinear_arith)
                requires
                    width * height <= usize::MAX / 2,
            ;
        }
        let mut data = Array2D::<AStarCell>::new(width, height);
        proof {
            assert forall|p: Position| in_bounds(width, height, p) implies data.spec_at(p)
                .spec_state() == AStarCellState::Free by {
                lemma_row_major_index_in_range(width, height, p);
            }
            lemma_count_visited_zero(data.cells());
        }
        let mut i: usize = 0;
        while i < blocked.len()
            invariant
                i <= blocked@.len(),
                data.wf(),
                data.spec_width() == width,
                data.spec_height() == height,
                count_visited(data.cells()) == 0,
                forall|j: int| 0 <= j < blocked@.len() ==> in_bounds(width, height, #[trigger] blocked@[j]),
                forall|p: Position|
                    in_bounds(width, height, p) ==> #[trigger] data.spec_at(p).spec_state() == (
                    if blocked@.take(i as int).contains(p) {
                        AStarCellState::Blocked
                    } else {
                        AStarCellState::Free
                    }),
            decreases blocked@.len() - i,
        {
            proof {
                lemma_row_major_index_in_range(width, height, blocked@[i as int]);
                assert(data.spec_at(blocked@[i as int]).spec_state() is Free || data.spec_at(
                    blocked@[i as int],
                ).spec_state() is Blocked);
                lemma_count_visited_update_unvisited(
                    data.cells(),
                    row_major_index(width, blocked@[i as int]),
                    AStarCell { state: AStarCellState::Blocked },
                );
            }
            data.set(blocked[i], AStarCell { state: AStarCellState::Blocked });
            proof {
                assert forall|p: Position| in_bounds(width, height, p) implies data.spec_at(p)
                    .spec_state() == (if blocked@.take(i + 1).contains(p) {
                    AStarCellState::Blocked
                } else {
                    AStarCellState::Free
                }) by {
                    assert(blocked@.take(i + 1) =~= blocked@.take(i as int).push(blocked@[i as int]));
                    if p == blocked@[i as int] {
                    } else {
                        assert(blocked@.take(i + 1).contains(p) == blocked@.take(i as int).contains(
                            p,
                        ));
                    }
                }
            }
            i = i + 1;
        }
        proof {
            assert(blocked@.take(blocked@.len() as int) =~= blocked@);
        }

        proof {
            assert(manhattan(origin, target) <= usize::MAX) by (nonlinear_arith)
                requires
                    width * height <= usize::MAX / 2,
                    origin.0 < width,
                    origin.1 < height,
                    target.0 < width,
                    target.1 < height,
                    manhattan(origin, target) < width + height,
            ;
        }
        let seed = AStarPath {
            head: origin,
            cost_from_origin: 0,
            min_cost_to_target: Self::min_distance(origin, target),
            diagonless_distance_to_target: Self::diagonless_distance(origin, target),
            order: 0,
        };
        let mut frontier: Vec<AStarPath> = Vec::new();
        frontier.push(seed);
        let pf = AStarPathfinder {
            working: true,
            width,
            height,
            origin,
            target,
            data,
            frontier,
            next_order: 1,
            rank: Ghost(Map::<Position, nat>::empty().insert(origin, 0nat)),
        };
        proof {
            assert(pf.frontier_view()[0].head == origin);
            assert forall|c: Position|
                in_bounds(width, height, c) && (c == origin || pf.cell(c) is VisitedFrom)
                    implies #[trigger] pf.settled(c) by {
                assert(pf.cell(c) is Free || pf.cell(c) is Blocked);
                assert(c == origin);
                assert(0 <= 0 < pf.frontier_view().len() && pf.frontier_view()[0].head == c);
            }
            if target == origin || pf.cell(target) is VisitedFrom {
                assert(pf.cell(target) is Free || pf.cell(target) is Blocked);
                assert(pf.frontier_view()[0].head == target);
            }
        }
        Ok(pf)
    }
}

/// Whether the demo obstacle layout blocks the cell at `(x, y)` on the
/// standard 64 by 64 demo grid: an arithmetic pattern over the coordinates
/// and the demo iteration, leaving clear margins near the two corners that
/// hold the origin and the target.
pub open spec fn demo_blocked(x: usize, y: usize, demo_iteration: usize) -> bool {
    &&& x + y >= 5
    &&& (64 - x) + (64 - y) >= 5
    &&& {
        ||| (x ^ (((y + 3) % 2) as usize) ^ demo_iteration) % ((1 + x / 2 + y / 5) as usize) == 0
        ||| (x / 8 + (y * 3) / 8) % 5 == 0
    }
}

impl AStarPathfinder {
    /// A pathfinder on the standard demo grid, with the obstacle layout
    /// given by `demo_blocked` for this `demo_iteration`.
    pub fn demo(demo_iteration: usize) -> (r: Self)
        ensures
            r.wf(),
            r.spec_working(),
            r.spec_width() == 64,
            r.spec_height() == 64,
            r.spec_origin() == (1usize, 1usize),
            r.spec_target() == (62usize, 62usize),
            forall|p: Position|
                in_bounds(64, 64, p) ==> #[trigger] r.cell(p) == (if demo_blocked(
                    p.0,
                    p.1,
                    demo_iteration,
                ) {
                    AStarCellState::Blocked
                } else {
                    AStarCellState::Free
                }),
            r.frontier_view().len() == 1,
            r.frontier_view()[0].head == (1usize, 1usize),
    {
        let mut pf = Self::default();
        let mut x: usize = 0;
        while x < 64
            invariant
                x <= 64,
                pf.wf(),
                pf.spec_working(),
                pf.spec_width() == 64,
                pf.spec_height() == 64,
                pf.spec_origin() == (1usize, 1usize),
                pf.spec_target() == (62usize, 62usize),
                forall|p: Position|
                    in_bounds(64, 64, p) ==> #[trigger] pf.cell(p) == (if p.0 < x && demo_blocked(
                        p.0,
                        p.1,
                        demo_iteration,
                    ) {
                        AStarCellState::Blocked
                    } else {
                        AStarCellState::Free
                    }),
                pf.frontier_view().len() == 1,
                pf.frontier_view()[0].head == (1usize, 1usize),
            decreases 64 - x,
        {
            let mut y: usize = 0;
            while y < 64
                invariant
                    x < 64,
                    y <= 64,
                    pf.wf(),
                    pf.spec_working(),
                    pf.spec_width() == 64,
                    pf.spec_height() == 64,
                    pf.spec_origin() == (1usize, 1usize),
                    pf.spec_target() == (62usize, 62usize),
                    forall|p: Position|
                        in_bounds(64, 64, p) ==> #[trigger] pf.cell(p) == (if (p.0 < x || (p.0 == x
                            && p.1 < y)) && demo_blocked(p.0, p.1, demo_iteration) {
                            AStarCellState::Blocked
                        } else {
                            AStarCellState::Free
                        }),
                    pf.frontier_view().len() == 1,
                    pf.frontier_view()[0].head == (1usize, 1usize),
                decreases 64 - y,
            {
                let ghost pre = pf;
                let mut blocked_now = false;
                if x + y >= 5 && (64 - x) + (64 - y) >= 5 {
                    let parity: usize = (y + 3) % 2;
                    let mixed: usize = x ^ parity ^ demo_iteration;
                    let divisor: usize = 1 + x / 2 + y / 5;
                    let on_scatter = mixed % divisor == 0;
                    let on_stripe = (x / 8 + (y * 3) / 8) % 5 == 0;
                    if on_scatter || on_stripe {
                        blocked_now = true;
                        proof {
                            lemma_row_major_index_in_range(64, 64, (x, y));
                            assert(pf.cell((x, y)) is Free || pf.cell((x, y)) is Blocked);
                            lemma_count_visited_update_unvisited(
                                pf.spec_data().cells(),
                                row_major_index(64, (x, y)),
                                AStarCell { state: AStarCellState::Blocked },
                            );
                        }
                        pf.data.set((x, y), AStarCell { state: AStarCellState::Blocked });
                    }
                }
                proof {
                    assert(blocked_now == demo_blocked(x, y, demo_iteration));
                    assert forall|p: Position| in_bounds(64, 64, p) implies #[trigger] pf.cell(p)
                        == (if (p.0 < x || (p.0 == x && p.1 < y + 1)) && demo_blocked(
                        p.0,
                        p.1,
                        demo_iteration,
                    ) {
                        AStarCellState::Blocked
                    } else {
                        AStarCellState::Free
                    }) by {
                        if p == (x, y) {
                            if !blocked_now {
                                assert(pf.cell(p) == pre.cell(p));
                            }
                        } else {
                            assert(pf.cell(p) == pre.cell(p));
                        }
                    }
                    assert forall|p: Position| in_bounds(64, 64, p) implies #[trigger] pf.cell_wf(
                        p,
                    ) by {
                        assert(pf.cell(p) is Free || pf.cell(p) is Blocked);
                    }
                    assert(forall|k: int|
                        0 <= k < pf.frontier_view().len() ==> pf.entry_wf(
                            #[trigger] pf.frontier_view()[k],
                        ));
                }
                y = y + 1;
            }
            x = x + 1;
        }
        pf
    }
}

/// Under the pathfinder invariant, a frontier entry's f-score fits in a
/// usize, so it can be computed without overflow.
proof fn lemma_entry_cost_bounded(pf: &AStarPathfinder, e: AStarPath)
    requires
        pf.wf(),
        pf.entry_wf(e),
    ensures
        e.cost_from_origin + e.min_cost_to_target <= usize::MAX,
        e.cost_from_origin < usize::MAX,
{
    let w = pf.spec_width();
    let h = pf.spec_height();
    lemma_count_visited_le_len(pf.spec_data().cells());
    if e.head == pf.spec_origin() && !(pf.cell(e.head) is VisitedFrom) {
        assert(e.cost_from_origin == 0);
    } else {
        assert(pf.cell_wf(e.head));
        assert(e.cost_from_origin <= count_visited(pf.spec_data().cells()));
    }
    assert(e.cost_from_origin <= w * h);
    assert(chebyshev(e.head, pf.spec_target()) < w + h);
    assert(w + h <= w * h + 1 && w * h + 1 <= usize::MAX / 2 + 1 && usize::MAX / 2 + usize::MAX / 2
        <= usize::MAX) by (nonlinear_arith)
        requires
            w >= 1,
            h >= 1,
            w * h <= usize::MAX / 2,
    ;
}

/// Under the pathfinder invariant, both distances between two in-bounds
/// positions fit in a usize.
proof fn lemma_distances_bounded(width: usize, height: usize, a: Position, b: Position)
    requires
        width * height <= usize::MAX / 2,
        in_bounds(width, height, a),
        in_bounds(width, height, b),
    ensures
        0 <= chebyshev(a, b) <= usize::MAX,
        0 <= manhattan(a, b) <= usize::MAX,
{
    assert(width + height <= width * height + 1) by (nonlinear_arith)
        requires
            width >= 1,
            height >= 1,
    ;
}

impl AStarPathfinder {
    /// The index of the frontier entry that ranks before every other one.
    fn best_index(&self) -> (r: usize)
        requires
            self.wf(),
            self.frontier_view().len() > 0,
        ensures
            r < self.frontier_view().len(),
            is_best_in(self.frontier_view(), self.frontier_view()[r as int]),
    {
        let mut best: usize = 0;
        let mut i: usize = 1;
        while i < self.frontier.len()
            invariant
                self.wf(),
                self.frontier_view().len() > 0,
                best < i,
                i <= self.frontier_view().len(),
                forall|j: int|
                    0 <= j < i ==> prio_le(
                        self.frontier_view()[best as int],
                        #[trigger] self.frontier_view()[j],
                    ),
            decreases self.frontier_view().len() - i,
        {
            proof {
                lemma_entry_cost_bounded(self, self.frontier_view()[i as int]);
                lemma_entry_cost_bounded(self, self.frontier_view()[best as int]);
            }
            if prio_before(&self.frontier[i], &self.frontier[best]) {
                best = i;
            }
            i = i + 1;
        }
        proof {
            assert(self.frontier_view().contains(self.frontier_view()[best as int]));
        }
        best
    }
}

/// The search parameters two pathfinder states share: one is a later state
/// of the other.
pub open spec fn same_search(a: &AStarPathfinder, b: &AStarPathfinder) -> bool {
    &&& a.spec_width() == b.spec_width()
    &&& a.spec_height() == b.spec_height()
    &&& a.spec_origin() == b.spec_origin()
    &&& a.spec_target() == b.spec_target()
}

/// The frontier entries created when `parent` is expanded to the open
/// neighbours `open`: one entry per neighbour, one move costlier than the
/// parent, with freshly computed distances to the target and consecutive
/// insertion sequence numbers starting at `base_order`.
pub open spec fn expansion_entries(
    open: Seq<Position>,
    parent: AStarPath,
    target: Position,
    base_order: usize,
) -> Seq<AStarPath> {
    Seq::new(
        open.len(),
        |j: int|
            AStarPath {
                head: open[j],
                cost_from_origin: (parent.cost_from_origin + 1) as usize,
                min_cost_to_target: chebyshev(open[j], target) as usize,
                diagonless_distance_to_target: manhattan(open[j], target) as usize,
                order: (base_order + j) as usize,
            },
    )
}

/// What one `step` call did when the best frontier entry's head was the
/// target: the search stopped, the entry was pushed back so the winning path
/// stays readable, and nothing else changed.
pub open spec fn step_found_target(pre: AStarPathfinder, post: AStarPathfinder, i: int) -> bool {
    let b = pre.frontier_view()[i];
    &&& !post.spec_working()
    &&& post.spec_data() == pre.spec_data()
    &&& post.rank_of() == pre.rank_of()
    &&& post.spec_next_order() == pre.spec_next_order()
    &&& post.frontier_view() == pre.frontier_view().remove(i).push(b)
}

/// What one `step` call did when the best frontier entry's head was not the
/// target: every open neighbour of that head was marked as reached from it,
/// one new frontier entry was created per such neighbour, and the search
/// kept running, with strictly less work left.
pub open spec fn step_expanded(pre: AStarPathfinder, post: AStarPathfinder, i: int) -> bool {
    let b = pre.frontier_view()[i];
    let open = pre.open_neighbours(b.head);
    &&& post.spec_working()
    &&& forall|p: Position|
        in_bounds(pre.spec_width(), pre.spec_height(), p) ==> #[trigger] post.cell(p) == (
        if open.contains(p) {
            AStarCellState::VisitedFrom(b.head)
        } else {
            pre.cell(p)
        })
    &&& post.frontier_view() == pre.frontier_view().remove(i) + expansion_entries(
        open,
        b,
        pre.spec_target(),
        pre.spec_next_order(),
    )
    &&& post.spec_next_order() == pre.spec_next_order() + open.len()
    &&& post.measure() < pre.measure()
}

impl AStarPathfinder {
    /// The positions of `s` whose cells are unexplored and that are not the
    /// origin, in order.
    pub open spec fn open_filter(&self, s: Seq<Position>) -> Seq<Position>
        decreases s.len(),
    {
        if s.len() == 0 {
            Seq::empty()
        } else {
            let rest = self.open_filter(s.drop_last());
            if self.cell(s.last()) is Free && s.last() != self.spec_origin() {
                rest.push(s.last())
            } else {
                rest
            }
        }
    }

    /// The neighbours of `from` that the search may still explore: cells
    /// that are unexplored and not the origin, in enumeration order.
    pub open spec fn open_neighbours(&self, from: Position) -> Seq<Position> {
        self.open_filter(neighbour_seq(self.spec_width(), self.spec_height(), from))
    }

    /// Every element of `open_filter(s)` comes from `s`, is unexplored, and
    /// is not the origin.
    proof fn lemma_open_filter_sound(&self, s: Seq<Position>)
        ensures
            forall|a: int|
                0 <= a < self.open_filter(s).len() ==> s.contains(#[trigger] self.open_filter(s)[a])
                    && self.cell(self.open_filter(s)[a]) is Free && self.open_filter(s)[a]
                    != self.spec_origin(),
        decreases s.len(),
    {
        if s.len() > 0 {
            self.lemma_open_filter_sound(s.drop_last());
            let rest = self.open_filter(s.drop_last());
            assert forall|a: int| 0 <= a < self.open_filter(s).len() implies s.contains(
                #[trigger] self.open_filter(s)[a],
            ) && self.cell(self.open_filter(s)[a]) is Free && self.open_filter(s)[a]
                != self.spec_origin() by {
                if a < rest.len() {
                    assert(self.open_filter(s)[a] == rest[a]);
                    let w = choose|w: int| 0 <= w < s.drop_last().len() && s.drop_last()[w]
                        == rest[a];
                    assert(s[w] == rest[a]);
                    assert(s.contains(rest[a]));
                } else {
                    assert(self.open_filter(s)[a] == s.last());
                    assert(s[s.len() - 1] == s.last());
                    assert(s.contains(s.last()));
                }
            }
        }
    }

    /// Filtering a duplicate-free sequence yields a duplicate-free sequence.
    proof fn lemma_open_filter_distinct(&self, s: Seq<Position>)
        requires
            forall|a: int, b: int| 0 <= a < b < s.len() ==> s[a] != s[b],
        ensures
            forall|a: int, b: int|
                0 <= a < b < self.open_filter(s).len() ==> self.open_filter(s)[a]
                    != self.open_filter(s)[b],
        decreases s.len(),
    {
        if s.len() > 0 {
            let prefix = s.drop_last();
            self.lemma_open_filter_distinct(prefix);
            self.lemma_open_filter_sound(prefix);
            let rest = self.open_filter(prefix);
            assert forall|a: int, b: int|
                0 <= a < b < self.open_filter(s).len() implies self.open_filter(s)[a]
                != self.open_filter(s)[b] by {
                if b == self.open_filter(s).len() - 1 && self.open_filter(s).len() == rest.len()
                    + 1 {
                    assert(self.open_filter(s)[b] == s.last());
                    assert(self.open_filter(s)[a] == rest[a]);
                    let w = choose|w: int| 0 <= w < prefix.len() && prefix[w] == rest[a];
                    assert(s[w] == rest[a]);
                    assert(s[s.len() - 1] == s.last());
                } else {
                    assert(self.open_filter(s)[a] == rest[a]);
                    assert(self.open_filter(s)[b] == rest[b]);
                }
            }
        }
    }

    /// The filter is complete: every unexplored non-origin element of `s`
    /// is kept.
    proof fn lemma_open_filter_complete(&self, s: Seq<Position>, q: Position)
        requires
            s.contains(q),
            self.cell(q) is Free,
            q != self.spec_origin(),
        ensures
            self.open_filter(s).contains(q),
        decreases s.len(),
    {
        let i = choose|i: int| 0 <= i < s.len() && s[i] == q;
        let rest = self.open_filter(s.drop_last());
        if s.last() == q {
            assert(self.open_filter(s) == rest.push(q));
            assert(self.open_filter(s)[rest.len() as int] == q);
            assert(self.open_filter(s).contains(q));
        } else {
            assert(s.drop_last()[i] == q);
            assert(s.drop_last().contains(q));
            self.lemma_open_filter_complete(s.drop_last(), q);
            let j = choose|j: int| 0 <= j < rest.len() && rest[j] == q;
            assert(self.open_filter(s)[j] == q);
            assert(self.open_filter(s).contains(q));
        }
    }

    /// The in-bounds neighbours of `position`, diagonals included.
    fn neighbours(&self, position: Position) -> (r: Vec<Position>)
        requires
            in_bounds(self.spec_width(), self.spec_height(), position),
        ensures
            r@ == neighbour_seq(self.spec_width(), self.spec_height(), position),
            forall|i: int|
                0 <= i < r@.len() ==> r@[i] != position && in_bounds(
                    self.spec_width(),
                    self.spec_height(),
                    #[trigger] r@[i],
                ) && adjacent(position, r@[i]),
            forall|i: int, j: int| 0 <= i < j < r@.len() ==> r@[i] != r@[j],
    {
        neighbour_positions(self.width, self.height, position)
    }

    /// Advances the search by one step: pops the highest-priority frontier
    /// entry; if its head is the target the search stops successfully (the
    /// entry is pushed back so the path stays readable); otherwise every
    /// unexplored neighbour of the head is marked as reached from it and
    /// enqueued. An empty frontier stops the search unsuccessfully, and a
    /// step on a stopped search is a no-op.
    pub fn step(&mut self)
        requires
            old(self).wf(),
        ensures
            final(self).wf(),
            same_search(old(self), final(self)),
            // reached cells are write-once: a recorded predecessor never changes
            forall|p: Position|
                in_bounds(old(self).spec_width(), old(self).spec_height(), p) && !(old(self).cell(
                    p,
                ) is Free) ==> final(self).cell(p) == old(self).cell(p),
            !old(self).spec_working() ==> *final(self) == *old(self),
            old(self).spec_working() && old(self).frontier_view().len() == 0 ==> {
                &&& !final(self).spec_working()
                &&& final(self).spec_data() == old(self).spec_data()
                &&& final(self).frontier_view() == old(self).frontier_view()
                &&& final(self).rank_of() == old(self).rank_of()
            },
            old(self).spec_working() && old(self).frontier_view().len() > 0 ==> exists|i: int|
                {
                    &&& 0 <= i < old(self).frontier_view().len()
                    &&& is_best_in(old(self).frontier_view(), #[trigger] old(self).frontier_view()[i])
                    &&& if old(self).frontier_view()[i].head == old(self).spec_target() {
                        step_found_target(*old(self), *final(self), i)
                    } else {
                        step_expanded(*old(self), *final(self), i)
                    }
                },
    {
        if !self.working {
            return ;
        }
        if self.frontier.len() == 0 {
            self.working = false;
            proof {
                assert(self.frontier_view().len() == 0);
                assert forall|p: Position|
                    in_bounds(self.spec_width(), self.spec_height(), p)
                        implies #[trigger] self.cell_wf(p) by {
                    assert(old(self).cell_wf(p));
                }
                assert forall|c: Position|
                    in_bounds(self.spec_width(), self.spec_height(), c) && (c == self.spec_origin()
                        || self.cell(c) is VisitedFrom) implies #[trigger] self.settled(c) by {
                    assert(old(self).settled(c));
                    assert forall|q: Position|
                        in_bounds(self.spec_width(), self.spec_height(), q) && adjacent(c, q) && q
                            != self.spec_origin() implies !((#[trigger] self.cell(q)) is Free) by {
                        assert(!(old(self).cell(q) is Free));
                    }
                }
                if self.spec_target() == self.spec_origin() || self.cell(self.spec_target())
                    is VisitedFrom {
                    assert(old(self).spec_target() == old(self).spec_origin() || old(self).cell(
                        old(self).spec_target(),
                    ) is VisitedFrom);
                    assert(false);
                }
                assert(self.wf());
            }
            return ;
        }
        let idx = self.best_index();
        let ghost pre = *self;
        let path = self.frontier.remove(idx);
        let ghost popped = pre.frontier_view().remove(idx as int);
        if pos_eq(path.head, self.target) {
            self.working = false;
            self.frontier.push(path);
            proof {
                let post = self.frontier_view();
                assert forall|a: int| 0 <= a < post.len() implies self.entry_wf(
                    #[trigger] post[a],
                ) by {
                    if a < post.len() - 1 {
                        if a < idx {
                            assert(post[a] == pre.frontier_view()[a]);
                        } else {
                            assert(post[a] == pre.frontier_view()[a + 1]);
                        }
                    } else {
                        assert(post[a] == path);
                    }
                }
                assert forall|a: int, b2: int| 0 <= a < b2 < post.len() implies post[a].order
                    != post[b2].order by {
                    let f = pre.frontier_view();
                    assert(forall|c: int|
                        0 <= c < post.len() - 1 ==> #[trigger] post[c] == (if c < idx {
                            f[c]
                        } else {
                            f[c + 1]
                        }));
                    assert(post[post.len() - 1] == f[idx as int]);
                }
                assert forall|a: int| 0 <= a < post.len() implies prio_le(path, #[trigger] post[a]) by {
                    let f = pre.frontier_view();
                    if a < post.len() - 1 {
                        if a < idx {
                            assert(post[a] == f[a]);
                        } else {
                            assert(post[a] == f[a + 1]);
                        }
                    } else {
                        assert(post[a] == path);
                    }
                }
                assert(post.contains(path)) by {
                    assert(post[post.len() - 1] == path);
                }
                assert(is_best_in(post, path));
                assert(step_found_target(pre, *self, idx as int));
                assert forall|p: Position|
                    in_bounds(self.spec_width(), self.spec_height(), p)
                        implies #[trigger] self.cell_wf(p) by {
                    assert(pre.cell_wf(p));
                }
                assert(path.head == self.spec_target());
                assert forall|c: Position|
                    in_bounds(self.spec_width(), self.spec_height(), c) && (c == self.spec_origin()
                        || self.cell(c) is VisitedFrom) implies #[trigger] self.settled(c) by {
                    assert(pre.settled(c));
                    let f = pre.frontier_view();
                    if exists|k: int| 0 <= k < f.len() && (#[trigger] f[k]).head == c {
                        let k = choose|k: int| 0 <= k < f.len() && (#[trigger] f[k]).head == c;
                        if k == idx {
                            assert(post[post.len() - 1] == f[idx as int]);
                            assert(post[post.len() - 1].head == c);
                        } else if k < idx {
                            assert(post[k] == f[k]);
                        } else {
                            assert(post[k - 1] == f[k]);
                        }
                    } else {
                        assert forall|q: Position|
                            in_bounds(self.spec_width(), self.spec_height(), q) && adjacent(c, q)
                                && q != self.spec_origin() implies !((#[trigger] self.cell(q))
                            is Free) by {
                            assert(!(pre.cell(q) is Free));
                        }
                    }
                }
                assert(post[post.len() - 1].head == self.spec_target());
                assert(self.wf());
            }
        } else {
            proof {
                lemma_entry_cost_bounded(&pre, path);
            }
            let neighbours = self.neighbours(path.head);
            let ghost nseq = neighbours@;
            let mut open: Vec<Position> = Vec::new();
            let mut k: usize = 0;
            while k < neighbours.len()
                invariant
                    k <= nseq.len(),
                    neighbours@ == nseq,
                    self.spec_working() == pre.spec_working(),
                    self.spec_width() == pre.spec_width(),
                    self.spec_height() == pre.spec_height(),
                    self.spec_origin() == pre.spec_origin(),
                    self.spec_target() == pre.spec_target(),
                    self.spec_data() == pre.spec_data(),
                    self.rank_of() == pre.rank_of(),
                    self.spec_next_order() == pre.spec_next_order(),
                    self.frontier_view() == popped,
                    pre.wf(),
                    in_bounds(pre.spec_width(), pre.spec_height(), path.head),
                    nseq == neighbour_seq(pre.spec_width(), pre.spec_height(), path.head),
                    open@ == pre.open_filter(nseq.take(k as int)),
                decreases nseq.len() - k,
            {
                let q = neighbours[k];
                let st = self.data.get(q).state();
                let open_q = matches!(st, AStarCellState::Free) && !pos_eq(q, self.origin);
                proof {
                    assert(nseq.take(k + 1).drop_last() =~= nseq.take(k as int));
                    assert(nseq.take(k + 1).last() == nseq[k as int]);
                }
                if open_q {
                    open.push(q);
                }
                k = k + 1;
            }
            proof {
                assert(nseq.take(nseq.len() as int) =~= nseq);
            }
            let ghost open_seq = open@;
            let ghost expansion = expansion_entries(
                open_seq,
                path,
                pre.spec_target(),
                pre.spec_next_order(),
            );
            proof {
                pre.lemma_open_filter_sound(nseq);
                pre.lemma_open_filter_distinct(nseq);
                assert forall|a: int| 0 <= a < open_seq.len() implies in_bounds(
                    pre.spec_width(),
                    pre.spec_height(),
                    #[trigger] open_seq[a],
                ) && adjacent(path.head, open_seq[a]) && open_seq[a] != path.head && open_seq[a]
                    != pre.spec_origin() && pre.cell(open_seq[a]) is Free by {
                    assert(nseq.contains(open_seq[a]));
                    let w = choose|w: int| 0 <= w < nseq.len() && nseq[w] == open_seq[a];
                    assert(nseq[w] == open_seq[a]);
                }
                lemma_count_visited_le_len(pre.spec_data().cells());
                if path.head == pre.spec_origin() {
                    assert(path.cost_from_origin == 0);
                } else {
                    assert(pre.cell_wf(path.head));
                }
                assert(path.cost_from_origin + 1 <= count_visited(pre.spec_data().cells()) + 1);
                assert forall|p: Position|
                    in_bounds(self.spec_width(), self.spec_height(), p)
                        implies #[trigger] self.cell_wf(p) by {
                    assert(pre.cell_wf(p));
                }
                assert forall|a: int| 0 <= a < self.frontier_view().len() implies self.entry_wf(
                    #[trigger] self.frontier_view()[a],
                ) by {
                    if a < idx {
                        assert(self.frontier_view()[a] == pre.frontier_view()[a]);
                        assert(pre.entry_wf(pre.frontier_view()[a]));
                    } else {
                        assert(self.frontier_view()[a] == pre.frontier_view()[a + 1]);
                        assert(pre.entry_wf(pre.frontier_view()[a + 1]));
                    }
                }
                assert forall|a: int, b2: int|
                    0 <= a < b2 < self.frontier_view().len() implies self.frontier_view()[a].order
                    != self.frontier_view()[b2].order by {
                    let f = pre.frontier_view();
                    assert(forall|c: int|
                        0 <= c < popped.len() ==> #[trigger] popped[c] == (if c < idx {
                            f[c]
                        } else {
                            f[c + 1]
                        }));
                }
                assert forall|c: Position|
                    in_bounds(pre.spec_width(), pre.spec_height(), c) && (c == pre.spec_origin()
                        || self.cell(c) is VisitedFrom) && c != path.head
                        implies #[trigger] self.settled(c) by {
                    assert(pre.settled(c));
                    let f = pre.frontier_view();
                    if exists|k: int| 0 <= k < f.len() && (#[trigger] f[k]).head == c {
                        let k = choose|k: int| 0 <= k < f.len() && (#[trigger] f[k]).head == c;
                        assert(f[idx as int].head == path.head);
                        assert(k != idx);
                        if k < idx {
                            assert(self.frontier_view()[k] == f[k]);
                        } else {
                            assert(self.frontier_view()[k - 1] == f[k]);
                        }
                    } else {
                        assert forall|q: Position|
                            in_bounds(self.spec_width(), self.spec_height(), q) && adjacent(c, q)
                                && q != self.spec_origin() implies !((#[trigger] self.cell(q))
                            is Free) by {
                            assert(!(pre.cell(q) is Free));
                        }
                    }
                }
                if self.spec_target() == pre.spec_origin() || self.cell(self.spec_target())
                    is VisitedFrom {
                    let f = pre.frontier_view();
                    let k = choose|k: int| 0 <= k < f.len() && (#[trigger] f[k]).head == pre.spec_target();
                    assert(f[idx as int].head == path.head);
                    assert(k != idx);
                    if k < idx {
                        assert(self.frontier_view()[k] == f[k]);
                    } else {
                        assert(self.frontier_view()[k - 1] == f[k]);
                    }
                }
            }
            let mut j: usize = 0;
            while j < open.len()
                invariant
                    j <= open_seq.len(),
                    open@ == open_seq,
                    pre.wf(),
                    0 <= idx < pre.frontier_view().len(),
                    path == pre.frontier_view()[idx as int],
                    popped == pre.frontier_view().remove(idx as int),
                    in_bounds(pre.spec_width(), pre.spec_height(), path.head),
                    pre.entry_wf(path),
                    path.cost_from_origin < usize::MAX,
                    path.cost_from_origin + 1 <= count_visited(pre.spec_data().cells()) + 1,
                    open_seq == pre.open_neighbours(path.head),
                    expansion == expansion_entries(
                        open_seq,
                        path,
                        pre.spec_target(),
                        pre.spec_next_order(),
                    ),
                    forall|a: int|
                        0 <= a < open_seq.len() ==> in_bounds(
                            pre.spec_width(),
                            pre.spec_height(),
                            #[trigger] open_seq[a],
                        ) && adjacent(path.head, open_seq[a]) && open_seq[a] != path.head
                            && open_seq[a] != pre.spec_origin() && pre.cell(open_seq[a]) is Free,
                    forall|a: int, b2: int|
                        0 <= a < b2 < open_seq.len() ==> open_seq[a] != open_seq[b2],
                    // static parts of the state
                    self.spec_working(),
                    self.spec_width() == pre.spec_width(),
                    self.spec_height() == pre.spec_height(),
                    self.spec_origin() == pre.spec_origin(),
                    self.spec_target() == pre.spec_target(),
                    self.spec_data().wf(),
                    self.spec_data().spec_width() == pre.spec_width(),
                    self.spec_data().spec_height() == pre.spec_height(),
                    self.spec_width() * self.spec_height() <= usize::MAX / 2,
                    // cells so far
                    forall|p: Position|
                        in_bounds(pre.spec_width(), pre.spec_height(), p) ==> #[trigger] self.cell(
                            p,
                        ) == (if open_seq.take(j as int).contains(p) {
                            AStarCellState::VisitedFrom(path.head)
                        } else {
                            pre.cell(p)
                        }),
                    count_visited(self.spec_data().cells()) == count_visited(
                        pre.spec_data().cells(),
                    ) + j,
                    // ranks so far
                    forall|p: Position|
                        #![trigger self.rank_of().contains_key(p)]
                        #![trigger open_seq.take(j as int).contains(p)]
                        !open_seq.take(j as int).contains(p) ==> (self.rank_of().contains_key(p)
                            == pre.rank_of().contains_key(p)) && (pre.rank_of().contains_key(p)
                            ==> self.rank_of()[p] == pre.rank_of()[p]),
                    forall|p: Position|
                        #![trigger self.rank_of().contains_key(p)]
                        #![trigger open_seq.take(j as int).contains(p)]
                        open_seq.take(j as int).contains(p) ==> self.rank_of().contains_key(p)
                            && self.rank_of()[p] == path.cost_from_origin + 1,
                    // frontier so far
                    self.frontier_view() == popped + expansion.take(j as int),
                    self.spec_next_order() == pre.spec_next_order() + j,
                    // invariant pieces of the current state
                    self.cell(self.spec_origin()) is Free,
                    self.rank_of().contains_key(self.spec_origin()),
                    self.rank_of()[self.spec_origin()] == 0,
                    forall|p: Position|
                        in_bounds(self.spec_width(), self.spec_height(), p)
                            ==> #[trigger] self.cell_wf(p),
                    forall|a: int|
                        0 <= a < self.frontier_view().len() ==> self.entry_wf(
                            #[trigger] self.frontier_view()[a],
                        ),
                    forall|a: int, b2: int|
                        0 <= a < b2 < self.frontier_view().len() ==> self.frontier_view()[a].order
                            != self.frontier_view()[b2].order,
                    self.spec_next_order() <= count_visited(self.spec_data().cells()) + 1,
                    forall|c: Position|
                        in_bounds(pre.spec_width(), pre.spec_height(), c) && (c
                            == pre.spec_origin() || self.cell(c) is VisitedFrom) && c != path.head
                            ==> #[trigger] self.settled(c),
                    (self.spec_target() == pre.spec_origin() || self.cell(self.spec_target())
                        is VisitedFrom) ==> exists|k: int|
                        0 <= k < self.frontier_view().len() && (#[trigger] self.frontier_view()[k]).head
                            == self.spec_target(),
                decreases open_seq.len() - j,
            {
                let q = open[j];
                proof {
                    assert(open_seq.take(j + 1) =~= open_seq.take(j as int).push(q));
                    assert(!open_seq.take(j as int).contains(q)) by {
                        if open_seq.take(j as int).contains(q) {
                            let a = choose|a: int|
                                0 <= a < j && open_seq.take(j as int)[a] == q;
                            assert(open_seq[a] == q);
                        }
                    }
                    assert(self.cell(q) is Free);
                    lemma_count_visited_le_len(self.spec_data().cells());
                    lemma_row_major_index_in_range(self.spec_width(), self.spec_height(), q);
                    lemma_count_visited_update(
                        self.spec_data().cells(),
                        row_major_index(self.spec_width(), q),
                        AStarCell { state: AStarCellState::VisitedFrom(path.head) },
                    );
                }
                let ghost mid = *self;
                self.data.set(q, AStarCell { state: AStarCellState::VisitedFrom(path.head) });
                self.rank = Ghost(self.rank@.insert(q, (path.cost_from_origin + 1) as nat));
                proof {
                    lemma_distances_bounded(self.width, self.height, q, self.target);
                }
                let h_cost = Self::min_distance(q, self.target);
                let d_cost = Self::diagonless_distance(q, self.target);
                let entry = AStarPath {
                    head: q,
                    cost_from_origin: path.cost_from_origin + 1,
                    min_cost_to_target: h_cost,
                    diagonless_distance_to_target: d_cost,
                    order: self.next_order,
                };
                self.frontier.push(entry);
                self.next_order = self.next_order + 1;
                proof {
                    assert(entry == expansion[j as int]);
                    assert(self.frontier_view() =~= popped + expansion.take(j + 1));
                    // ranks pointwise
                    assert(self.rank_of() == mid.rank_of().insert(
                        q,
                        (path.cost_from_origin + 1) as nat,
                    ));
                    assert forall|p: Position| !open_seq.take(j + 1).contains(p) implies (
                    self.rank_of().contains_key(p) == pre.rank_of().contains_key(p)) && (
                    pre.rank_of().contains_key(p) ==> self.rank_of()[p] == pre.rank_of()[p]) by {
                        assert(!open_seq.take(j as int).contains(p));
                        assert(p != q);
                        assert(mid.rank_of().contains_key(p) == pre.rank_of().contains_key(p));
                        assert(self.rank_of().contains_key(p) == mid.rank_of().contains_key(p));
                        if pre.rank_of().contains_key(p) {
                            assert(mid.rank_of()[p] == pre.rank_of()[p]);
                            assert(self.rank_of()[p] == mid.rank_of()[p]);
                        }
                    }
                    assert forall|p: Position| open_seq.take(j + 1).contains(p)
                        implies self.rank_of().contains_key(p) && self.rank_of()[p]
                        == path.cost_from_origin + 1 by {
                        if p != q {
                            assert(open_seq.take(j as int).contains(p));
                            assert(mid.rank_of().contains_key(p) && mid.rank_of()[p]
                                == path.cost_from_origin + 1);
                            assert(self.rank_of().contains_key(p) && self.rank_of()[p]
                                == mid.rank_of()[p]);
                        } else {
                            assert(self.rank_of().contains_key(q) && self.rank_of()[q]
                                == path.cost_from_origin + 1);
                        }
                    }
                    // cells pointwise
                    assert forall|p: Position|
                        in_bounds(pre.spec_width(), pre.spec_height(), p) implies #[trigger] self.cell(p)
                        == (if open_seq.take(j + 1).contains(p) {
                        AStarCellState::VisitedFrom(path.head)
                    } else {
                        pre.cell(p)
                    }) by {
                        if p != q {
                            assert(self.cell(p) == mid.cell(p));
                        }
                    }
                    // the head cell is untouched by this marking
                    assert(self.cell(path.head) == mid.cell(path.head));
                    // cell invariant
                    assert forall|p: Position|
                        in_bounds(self.spec_width(), self.spec_height(), p)
                            implies #[trigger] self.cell_wf(p) by {
                        if p == q {
                            assert(self.cell(p) == AStarCellState::VisitedFrom(path.head));
                            assert(self.rank_of()[q] == path.cost_from_origin + 1);
                            assert(self.rank_of().contains_key(path.head));
                            assert(self.rank_of()[path.head] == path.cost_from_origin);
                        } else {
                            assert(mid.cell_wf(p));
                            match mid.cell(p) {
                                AStarCellState::VisitedFrom(parent) => {
                                    assert(self.cell(p) == mid.cell(p));
                                    assert(parent != q);
                                    assert(self.cell(parent) == mid.cell(parent));
                                },
                                _ => {},
                            }
                        }
                    }
                    // frontier entry invariant
                    assert forall|a: int|
                        0 <= a < self.frontier_view().len() implies self.entry_wf(
                        #[trigger] self.frontier_view()[a],
                    ) by {
                        if a < self.frontier_view().len() - 1 {
                            let e = self.frontier_view()[a];
                            assert(mid.entry_wf(e));
                            assert(e.head != q);
                            assert(self.cell(e.head) == mid.cell(e.head));
                        } else {
                            assert(self.frontier_view()[a] == entry);
                        }
                    }
                    // settledness of all reached cells but the popped head
                    assert forall|c: Position|
                        in_bounds(pre.spec_width(), pre.spec_height(), c) && (c
                            == pre.spec_origin() || self.cell(c) is VisitedFrom) && c != path.head
                            implies #[trigger] self.settled(c) by {
                        if c == q {
                            assert(self.frontier_view()[self.frontier_view().len() - 1].head == q);
                        } else {
                            assert(self.cell(c) == mid.cell(c));
                            assert(mid.settled(c));
                            let f = mid.frontier_view();
                            if exists|k: int| 0 <= k < f.len() && (#[trigger] f[k]).head == c {
                                let k = choose|k: int| 0 <= k < f.len() && (#[trigger] f[k]).head
                                    == c;
                                assert(self.frontier_view()[k] == f[k]);
                            } else {
                                assert forall|q2: Position|
                                    in_bounds(self.spec_width(), self.spec_height(), q2)
                                        && adjacent(c, q2) && q2 != self.spec_origin() implies !((
                                #[trigger] self.cell(q2)) is Free) by {
                                    assert(!(mid.cell(q2) is Free));
                                }
                            }
                        }
                    }
                    // a target entry survives whenever the target is reached
                    if self.spec_target() == pre.spec_origin() || self.cell(self.spec_target())
                        is VisitedFrom {
                        if self.spec_target() == q {
                            assert(self.frontier_view()[self.frontier_view().len() - 1].head == q);
                        } else {
                            assert(mid.spec_target() == pre.spec_origin() || mid.cell(
                                mid.spec_target(),
                            ) is VisitedFrom);
                            let f = mid.frontier_view();
                            let k = choose|k: int|
                                0 <= k < f.len() && (#[trigger] f[k]).head == mid.spec_target();
                            assert(self.frontier_view()[k] == f[k]);
                        }
                    }
                }
                j = j + 1;
            }
            proof {
                assert(open_seq.take(open_seq.len() as int) =~= open_seq);
                assert(expansion.take(expansion.len() as int) =~= expansion);
                assert forall|c: Position|
                    in_bounds(self.spec_width(), self.spec_height(), c) && (c == self.spec_origin()
                        || self.cell(c) is VisitedFrom) implies #[trigger] self.settled(c) by {
                    if c == path.head {
                        assert forall|q2: Position|
                            in_bounds(self.spec_width(), self.spec_height(), q2) && adjacent(
                                path.head,
                                q2,
                            ) && q2 != self.spec_origin() implies !((#[trigger] self.cell(q2))
                        is Free) by {
                            if open_seq.contains(q2) {
                                assert(self.cell(q2) == AStarCellState::VisitedFrom(path.head));
                            } else {
                                assert(self.cell(q2) == pre.cell(q2));
                                if pre.cell(q2) is Free {
                                    lemma_neighbour_seq_complete(
                                        pre.spec_width(),
                                        pre.spec_height(),
                                        path.head,
                                        q2,
                                    );
                                    pre.lemma_open_filter_complete(nseq, q2);
                                    assert(open_seq.contains(q2));
                                }
                            }
                        }
                    }
                }
                assert(step_expanded(pre, *self, idx as int)) by {
                    assert(self.frontier_view() == popped + expansion);
                    assert(self.measure() < pre.measure()) by {
                        assert(self.frontier_view().len() == popped.len() + open_seq.len());
                        assert(count_visited(self.spec_data().cells()) == count_visited(
                            pre.spec_data().cells(),
                        ) + open_seq.len());
                    }
                }
                assert(self.wf());
            }
        }
    }
}

/// A frontier can hold at most one best entry once its insertion sequence
/// numbers are distinct, as they are in any well-formed pathfinder.
pub proof fn lemma_best_unique(f: Seq<AStarPath>, e1: AStarPath, e2: AStarPath)
    requires
        is_best_in(f, e1),
        is_best_in(f, e2),
        forall|i: int, j: int| 0 <= i < j < f.len() ==> f[i].order != f[j].order,
    ensures
        e1 == e2,
{
    let i1 = choose|i: int| 0 <= i < f.len() && f[i] == e1;
    let i2 = choose|i: int| 0 <= i < f.len() && f[i] == e2;
    assert(prio_le(e1, e2) && prio_le(e2, e1));
    assert(e1.order == e2.order);
    if i1 != i2 {
        assert(f[i1].order != f[i2].order);
    }
}

impl AStarPathfinder {
    /// `p` is the path that the backpointers record from the origin to
    /// `head`: it starts at the origin, ends at `head`, its cells lie at
    /// increasing distances from the origin, and every cell after the first
    /// records the cell before it as its predecessor.
    pub open spec fn is_chain_to(&self, p: Seq<Position>, head: Position) -> bool {
        &&& p.len() == self.rank_of()[head] + 1
        &&& p.len() >= 1
        &&& p[0] == self.spec_origin()
        &&& p[p.len() - 1] == head
        &&& forall|i: int|
            0 <= i < p.len() ==> self.rank_of().contains_key(#[trigger] p[i]) && self.rank_of()[p[i]]
                == i && in_bounds(self.spec_width(), self.spec_height(), p[i])
        &&& forall|i: int|
            1 <= i < p.len() ==> self.cell(#[trigger] p[i]) == AStarCellState::VisitedFrom(
                p[i - 1],
            )
    }

    /// `p` is the path from the origin to the head of the best frontier
    /// entry: the most promising candidate mid-search, the winning path once
    /// the search has succeeded.
    pub open spec fn is_peeked_path(&self, p: Seq<Position>) -> bool {
        exists|e: AStarPath| is_best_in(self.frontier_view(), e) && self.is_chain_to(p, e.head)
    }

    /// The chain to a given head is unique element by element.
    proof fn lemma_chain_elem_eq(
        &self,
        p1: Seq<Position>,
        p2: Seq<Position>,
        head: Position,
        i: int,
    )
        requires
            self.is_chain_to(p1, head),
            self.is_chain_to(p2, head),
            0 <= i < p1.len(),
        ensures
            p1[i] == p2[i],
        decreases p1.len() - i,
    {
        if i < p1.len() - 1 {
            self.lemma_chain_elem_eq(p1, p2, head, i + 1);
            assert(self.cell(p1[i + 1]) == AStarCellState::VisitedFrom(p1[i]));
            assert(self.cell(p2[i + 1]) == AStarCellState::VisitedFrom(p2[i]));
        }
    }
}

/// Peeking is deterministic: any two paths peeked from the same pathfinder
/// state are identical, so re-running `peek_path` without stepping in
/// between always yields the same result.
pub proof fn lemma_peeked_path_unique(pf: &AStarPathfinder, p1: Seq<Position>, p2: Seq<Position>)
    requires
        pf.wf(),
        pf.is_peeked_path(p1),
        pf.is_peeked_path(p2),
    ensures
        p1 == p2,
{
    let e1 = choose|e: AStarPath| is_best_in(pf.frontier_view(), e) && pf.is_chain_to(p1, e.head);
    let e2 = choose|e: AStarPath| is_best_in(pf.frontier_view(), e) && pf.is_chain_to(p2, e.head);
    lemma_best_unique(pf.frontier_view(), e1, e2);
    assert forall|i: int| 0 <= i < p1.len() implies p1[i] == p2[i] by {
        pf.lemma_chain_elem_eq(p1, p2, e1.head, i);
    }
    assert(p1 =~= p2);
}

/// Any sequence of cells in which each cell is adjacent to the one before it
/// is at least one longer than the Chebyshev distance between its endpoints:
/// a single 8-directional move changes that distance by at most one.
pub proof fn lemma_path_length_lower_bound(p: Seq<Position>)
    requires
        p.len() >= 1,
        forall|i: int| 1 <= i < p.len() ==> adjacent(p[i - 1], #[trigger] p[i]),
    ensures
        p.len() >= chebyshev(p[0], p[p.len() - 1]) + 1,
    decreases p.len(),
{
    if p.len() > 1 {
        let q = p.drop_last();
        assert forall|i: int| 1 <= i < q.len() implies adjacent(q[i - 1], #[trigger] q[i]) by {
            assert(q[i] == p[i] && q[i - 1] == p[i - 1]);
        }
        lemma_path_length_lower_bound(q);
        assert(adjacent(p[p.len() - 2], p[p.len() - 1]));
        assert(chebyshev(p[0], p[p.len() - 1]) <= chebyshev(p[0], p[p.len() - 2]) + 1);
    }
}

/// Walking along unblocked cells from the origin of a pathfinder whose
/// frontier is empty only crosses reached cells.
proof fn lemma_reached_along(pf: &AStarPathfinder, p: Seq<Position>, i: int)
    requires
        pf.wf(),
        pf.frontier_view().len() == 0,
        p.len() >= 1,
        p[0] == pf.spec_origin(),
        forall|k: int|
            0 <= k < p.len() ==> in_bounds(pf.spec_width(), pf.spec_height(), #[trigger] p[k]) && !(
            pf.cell(p[k]) is Blocked),
        forall|k: int| 1 <= k < p.len() ==> adjacent(p[k - 1], #[trigger] p[k]),
        0 <= i < p.len(),
    ensures
        p[i] == pf.spec_origin() || pf.cell(p[i]) is VisitedFrom,
    decreases i,
{
    if i > 0 {
        lemma_reached_along(pf, p, i - 1);
        assert(pf.settled(p[i - 1]));
        if p[i] != pf.spec_origin() {
            assert(!(pf.cell(p[i]) is Free));
        }
    }
}

/// An exhausted search is honest: as long as some chain of adjacent,
/// in-bounds, unblocked cells leads from the origin to the target, the
/// frontier cannot be empty. So when the search stops with an empty
/// frontier, the target really is walled off.
pub proof fn lemma_reachable_target_keeps_frontier(pf: &AStarPathfinder, p: Seq<Position>)
    requires
        pf.wf(),
        p.len() >= 1,
        p[0] == pf.spec_origin(),
        p[p.len() - 1] == pf.spec_target(),
        forall|k: int|
            0 <= k < p.len() ==> in_bounds(pf.spec_width(), pf.spec_height(), #[trigger] p[k]) && !(
            pf.cell(p[k]) is Blocked),
        forall|k: int| 1 <= k < p.len() ==> adjacent(p[k - 1], #[trigger] p[k]),
    ensures
        pf.frontier_view().len() > 0,
{
    if pf.frontier_view().len() == 0 {
        lemma_reached_along(pf, p, p.len() - 1);
        assert(pf.spec_target() == pf.spec_origin() || pf.cell(pf.spec_target()) is VisitedFrom);
        assert(false);
    }
}

/// On a grid with no blocked cells the frontier is never exhausted, so the
/// search always stops by reaching the target and always returns a path.
pub proof fn lemma_no_obstacles_means_found(pf: &AStarPathfinder)
    requires
        pf.wf(),
        forall|q: Position|
            in_bounds(pf.spec_width(), pf.spec_height(), q) ==> !((#[trigger] pf.cell(q))
                is Blocked),
    ensures
        pf.frontier_view().len() > 0,
{
    lemma_staircase_valid(pf.spec_width(), pf.spec_height(), pf.spec_origin(), pf.spec_target());
    lemma_reachable_target_keeps_frontier(pf, staircase(pf.spec_origin(), pf.spec_target()));
}

/// One half of path optimality: a path read back from the search, mid-run or
/// after success, is never shorter than 8-directional unit-cost movement
/// between its endpoints allows. In particular, a successful search cannot
/// report a path shorter than the Chebyshev distance from origin to target
/// plus the start cell.
pub proof fn lemma_peeked_path_respects_distance(pf: &AStarPathfinder, p: Seq<Position>)
    requires
        pf.wf(),
        pf.is_peeked_path(p),
    ensures
        p.len() >= chebyshev(pf.spec_origin(), p[p.len() - 1]) + 1,
{
    let e = choose|e: AStarPath| is_best_in(pf.frontier_view(), e) && pf.is_chain_to(p, e.head);
    assert forall|i: int| 1 <= i < p.len() implies adjacent(p[i - 1], #[trigger] p[i]) by {
        assert(pf.cell(p[i]) == AStarCellState::VisitedFrom(p[i - 1]));
        assert(pf.cell_wf(p[i]));
    }
    lemma_path_length_lower_bound(p);
}

impl AStarPathfinder {
    /// Reads the currently most promising path without advancing the search:
    /// walks the backpointers from the head of the best frontier entry back
    /// to the origin and returns the cells in origin-first order. Returns
    /// `None` exactly when the frontier is empty. Valid to call mid-search;
    /// after a successful search it returns the winning path.
    pub fn peek_path(&mut self) -> (r: Option<Vec<Position>>)
        requires
            old(self).wf(),
        ensures
            *final(self) == *old(self),
            r is Some <==> old(self).frontier_view().len() > 0,
            r matches Some(path) ==> {
                &&& old(self).is_peeked_path(path@)
                &&& path@.len() >= 1
                &&& path@[0] == old(self).spec_origin()
                &&& forall|i: int| 1 <= i < path@.len() ==> adjacent(path@[i - 1], #[trigger] path@[i])
                &&& forall|i: int|
                    0 <= i < path@.len() ==> in_bounds(
                        old(self).spec_width(),
                        old(self).spec_height(),
                        #[trigger] path@[i],
                    ) && !(old(self).cell(path@[i]) is Blocked)
                &&& forall|i: int, j: int| 0 <= i < j < path@.len() ==> path@[i] != path@[j]
            },
    {
        if self.frontier.len() == 0 {
            return None;
        }
        let idx = self.best_index();
        let head0 = self.frontier[idx].head;
        let ghost rank = self.rank_of();
        let mut rev: Vec<Position> = Vec::new();
        let mut current = head0;
        loop
            invariant_except_break
                self.wf(),
                self.frontier_view().len() > 0,
                in_bounds(self.spec_width(), self.spec_height(), current),
                current == self.spec_origin() || self.cell(current) is VisitedFrom,
                rank == self.rank_of(),
                rank.contains_key(current),
                rank.contains_key(head0),
                rank[current] <= rank[head0],
                rev@.len() == rank[head0] - rank[current],
                rev@.len() == 0 ==> current == head0,
                rev@.len() > 0 ==> rev@[0] == head0,
                rev@.len() > 0 ==> self.cell(rev@[rev@.len() - 1]) == AStarCellState::VisitedFrom(
                    current,
                ),
                forall|i: int|
                    0 <= i < rev@.len() ==> in_bounds(
                        self.spec_width(),
                        self.spec_height(),
                        #[trigger] rev@[i],
                    ) && rank.contains_key(rev@[i]) && rank[rev@[i]] == rank[head0] - i && !(
                    self.cell(rev@[i]) is Blocked),
                forall|i: int|
                    0 <= i < rev@.len() - 1 ==> self.cell(#[trigger] rev@[i])
                        == AStarCellState::VisitedFrom(rev@[i + 1]),
            ensures
                self.wf(),
                rank == self.rank_of(),
                rank.contains_key(head0),
                rev@.len() == rank[head0] + 1,
                rev@[0] == head0,
                rev@[rev@.len() - 1] == self.spec_origin(),
                forall|i: int|
                    0 <= i < rev@.len() ==> in_bounds(
                        self.spec_width(),
                        self.spec_height(),
                        #[trigger] rev@[i],
                    ) && rank.contains_key(rev@[i]) && rank[rev@[i]] == rank[head0] - i && !(
                    self.cell(rev@[i]) is Blocked),
                forall|i: int|
                    0 <= i < rev@.len() - 1 ==> self.cell(#[trigger] rev@[i])
                        == AStarCellState::VisitedFrom(rev@[i + 1]),
            decreases rank[current],
        {
            rev.push(current);
            let st = self.data.get(current).state();
            match st {
                AStarCellState::VisitedFrom(q) => {
                    proof {
                        assert(self.cell_wf(current));
                        assert(rank.contains_key(q) && rank[q] + 1 == rank[current]);
                    }
                    current = q;
                },
                _ => {
                    proof {
                        assert(current == self.spec_origin());
                        assert(rank[current] == 0);
                    }
                    break ;
                },
            }
        }
        let mut path: Vec<Position> = Vec::new();
        let n = rev.len();
        let mut k = n;
        while k > 0
            invariant
                k <= n,
                n == rev@.len(),
                path@.len() == n - k,
                forall|i: int| 0 <= i < path@.len() ==> #[trigger] path@[i] == rev@[n - 1 - i],
            decreases k,
        {
            k = k - 1;
            path.push(rev[k]);
        }
        proof {
            let p = path@;
            let ghost best = self.frontier_view()[idx as int];
            assert(p.len() == rank[head0] + 1);
            assert(p[0] == rev@[n - 1] && rev@[n - 1] == self.spec_origin());
            assert(p[p.len() - 1] == rev@[0] && rev@[0] == head0);
            assert forall|i: int| 0 <= i < p.len() implies rank.contains_key(#[trigger] p[i])
                && rank[p[i]] == i && in_bounds(self.spec_width(), self.spec_height(), p[i]) && !(
            self.cell(p[i]) is Blocked) by {
                assert(p[i] == rev@[n - 1 - i]);
            }
            assert forall|i: int| 1 <= i < p.len() implies self.cell(#[trigger] p[i])
                == AStarCellState::VisitedFrom(p[i - 1]) by {
                assert(p[i] == rev@[n - 1 - i]);
                assert(p[i - 1] == rev@[n - i]);
                assert(self.cell(rev@[n - 1 - i]) == AStarCellState::VisitedFrom(rev@[n - i]));
            }
            assert(self.is_chain_to(p, head0));
            assert(self.is_peeked_path(p)) by {
                assert(is_best_in(self.frontier_view(), best) && self.is_chain_to(p, best.head));
            }
            assert forall|i: int| 1 <= i < p.len() implies adjacent(p[i - 1], #[trigger] p[i]) by {
                assert(self.cell_wf(p[i]));
            }
            assert forall|i: int, j: int| 0 <= i < j < p.len() implies p[i] != p[j] by {
                assert(rank[p[i]] == i && rank[p[j]] == j);
            }
        }
        Some(path)
    }

    /// Runs the search to completion: steps until it stops, then returns the
    /// path that was found, or `None` if the frontier was exhausted without
    /// reaching the target. The search always terminates.
    pub fn get_path(&mut self) -> (r: Option<Vec<Position>>)
        requires
            old(self).wf(),
        ensures
            final(self).wf(),
            same_search(old(self), final(self)),
            !final(self).spec_working(),
            r is Some <==> final(self).frontier_view().len() > 0,
            r matches Some(path) ==> {
                &&& final(self).is_peeked_path(path@)
                &&& path@.len() >= 1
                &&& path@[0] == old(self).spec_origin()
                &&& path@[path@.len() - 1] == old(self).spec_target()
                &&& forall|i: int| 1 <= i < path@.len() ==> adjacent(path@[i - 1], #[trigger] path@[i])
                &&& forall|i: int|
                    0 <= i < path@.len() ==> in_bounds(
                        old(self).spec_width(),
                        old(self).spec_height(),
                        #[trigger] path@[i],
                    ) && !(final(self).cell(path@[i]) is Blocked)
                &&& forall|i: int, j: int| 0 <= i < j < path@.len() ==> path@[i] != path@[j]
            },
    {
        while self.working()
            invariant
                self.wf(),
                self.spec_width() == old(self).spec_width(),
                self.spec_height() == old(self).spec_height(),
                self.spec_origin() == old(self).spec_origin(),
                self.spec_target() == old(self).spec_target(),
            decreases (if self.spec_working() {
                1int
            } else {
                0int
            }), self.measure(),
        {
            proof {
                lemma_count_visited_le_len(self.spec_data().cells());
            }
            self.step();
            proof {
                lemma_count_visited_le_len(self.spec_data().cells());
            }
        }
        let r = self.peek_path();
        match r {
            None => None,
            Some(path) => {
                proof {
                    let pe = choose|e: AStarPath|
                        is_best_in(self.frontier_view(), e) && self.is_chain_to(path@, e.head);
                    let te = choose|e: AStarPath|
                        is_best_in(self.frontier_view(), e) && e.head == self.spec_target();
                    lemma_best_unique(self.frontier_view(), pe, te);
                }
                Some(path)
            },
        }
    }
}

impl Default for AStarPathfinder {
    /// The demo configuration: a 64 by 64 grid with no blocked cells,
    /// searching from `(1, 1)` to `(62, 62)`.
    fn default() -> (r: Self)
        ensures
            r.wf(),
            r.spec_working(),
            r.spec_width() == 64,
            r.spec_height() == 64,
            r.spec_origin() == (1usize, 1usize),
            r.spec_target() == (62usize, 62usize),
            forall|p: Position| in_bounds(64, 64, p) ==> #[trigger] r.cell(p) is Free,
            r.frontier_view().len() == 1,
            is_best_in(r.frontier_view(), r.frontier_view()[0]),
            r.frontier_view()[0].head == (1usize, 1usize),
    {
        let blocked: Vec<Position> = Vec::new();
        match AStarPathfinder::new(64, 64, (1, 1), (62, 62), &blocked) {
            Ok(pf) => pf,
            Err(_) => vstd::pervasive::unreached(),
        }
    }
}

} // verus!
