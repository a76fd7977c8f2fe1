use vstd::prelude::*;

use crate::grid::{
    adjacent, chebyshev, chebyshev_distance, in_bounds, neighbour_positions, neighbour_seq, pos_eq,
    Position,
};
use crate::square_grid::SquareGrid;

verus! {

/// The walker's per-cell payload: whether the walk has entered the cell.
/// Once set, a cell's flag is never cleared within one walker's lifetime.
#[derive(Clone, Copy, Debug)]
pub struct NodeInfo {
    pub visited: bool,
}

impl Default for NodeInfo {
    /// Cells start out unvisited.
    fn default() -> (r: Self)
        ensures
            !r.visited,
    {
        NodeInfo { visited: false }
    }
}

/// The source of randomness the walker draws from. Declared so that verified
/// code can hold and pass it; nothing is assumed about the values it yields.
#[verifier::external_type_specification]
#[verifier::external_body]
pub struct ExStdRng(rand::rngs::StdRng);

/// Relies on rand's `RngExt::random_range`: sampling from the non-empty
/// range `0..n` does not panic and returns a value below `n`. Nothing is
/// assumed about which value comes back.
#[verifier::external_body]
fn rand_below(rng: &mut rand::rngs::StdRng, n: usize) -> (r: usize)
    requires
        1 <= n,
    ensures
        r < n,
{
    rand::RngExt::random_range(rng, 0..n)
}

/// The smallest value `f` takes on the elements of `s` (0 if `s` is empty).
pub open spec fn seq_min(s: Seq<Position>, f: spec_fn(Position) -> int) -> int
    decreases s.len(),
{
    if s.len() == 0 {
        0
    } else if s.len() == 1 {
        f(s[0])
    } else {
        let rest = seq_min(s.drop_last(), f);
        if f(s.last()) < rest {
            f(s.last())
        } else {
            rest
        }
    }
}

/// The elements of `s` on which `f` takes the value `m`, in order.
pub open spec fn keep_matching(s: Seq<Position>, f: spec_fn(Position) -> int, m: int) -> Seq<
    Position,
>
    decreases s.len(),
{
    if s.len() == 0 {
        Seq::empty()
    } else {
        let rest = keep_matching(s.drop_last(), f, m);
        if f(s.last()) == m {
            rest.push(s.last())
        } else {
            rest
        }
    }
}

/// Every kept element comes from `s` and takes the value `m` under `f`.
pub proof fn lemma_keep_matching_sound(s: Seq<Position>, f: spec_fn(Position) -> int, m: int)
    ensures
        forall|a: int|
            0 <= a < keep_matching(s, f, m).len() ==> s.contains(#[trigger] keep_matching(s, f, m)[a])
                && f(keep_matching(s, f, m)[a]) == m,
    decreases s.len(),
{
    if s.len() > 0 {
        lemma_keep_matching_sound(s.drop_last(), f, m);
        let rest = keep_matching(s.drop_last(), f, m);
        assert forall|a: int| 0 <= a < keep_matching(s, f, m).len() implies s.contains(
            #[trigger] keep_matching(s, f, m)[a],
        ) && f(keep_matching(s, f, m)[a]) == m by {
            if a < rest.len() {
                assert(keep_matching(s, f, m)[a] == rest[a]);
                let w = choose|w: int| 0 <= w < s.drop_last().len() && s.drop_last()[w] == rest[a];
                assert(s[w] == rest[a]);
                assert(s.contains(rest[a]));
            } else {
                assert(keep_matching(s, f, m)[a] == s.last());
                assert(s[s.len() - 1] == s.last());
                assert(s.contains(s.last()));
            }
        }
    }
}

/// The smallest value is attained: filtering a non-empty sequence down to
/// the elements on which `f` is smallest keeps at least one element. In
/// particular, the greedy and inertia policies never return an empty subset
/// for a non-empty candidate list.
pub proof fn lemma_keep_matching_min_nonempty(s: Seq<Position>, f: spec_fn(Position) -> int)
    requires
        s.len() > 0,
    ensures
        keep_matching(s, f, seq_min(s, f)).len() > 0,
        forall|a: int| 0 <= a < s.len() ==> seq_min(s, f) <= f(#[trigger] s[a]),
    decreases s.len(),
{
    if s.len() == 1 {
        assert(keep_matching(s, f, seq_min(s, f)) == keep_matching(s.drop_last(), f, f(s[0])).push(
            s.last(),
        ));
    } else {
        let prefix = s.drop_last();
        lemma_keep_matching_min_nonempty(prefix, f);
        let m = seq_min(s, f);
        if f(s.last()) != m {
            assert(m == seq_min(prefix, f));
        }
        assert forall|a: int| 0 <= a < s.len() implies seq_min(s, f) <= f(#[trigger] s[a]) by {
            if a < s.len() - 1 {
                assert(prefix[a] == s[a]);
            }
        }
    }
}

/// The Chebyshev distance to `target`, as a ranking function for candidates.
pub open spec fn cheb_to(target: Position) -> spec_fn(Position) -> int {
    |c: Position| chebyshev(c, target)
}

/// How strongly moving from the previous cell `prev` to the candidate `c`
/// keeps the walk's direction: one point per axis along which `c` continues
/// straight past the current head (a gap of exactly two from `prev`).
pub open spec fn inertia_score(prev: Position, c: Position) -> int {
    let dx = if prev.0 >= c.0 { prev.0 - c.0 } else { c.0 - prev.0 };
    let dy = if prev.1 >= c.1 { prev.1 - c.1 } else { c.1 - prev.1 };
    (if dx == 2 { 1int } else { 0 }) + (if dy == 2 { 1int } else { 0 })
}

/// How much direction a candidate loses, as a ranking function: candidates
/// with the smallest loss have the highest inertia.
pub open spec fn inertia_loss(prev: Position) -> spec_fn(Position) -> int {
    |c: Position| 2 - inertia_score(prev, c)
}

/// Computes `inertia_loss(prev)` for one candidate.
fn inertia_loss_of(prev: Position, c: Position) -> (r: usize)
    ensures
        r == inertia_loss(prev)(c),
{
    let dx = if prev.0 >= c.0 {
        prev.0 - c.0
    } else {
        c.0 - prev.0
    };
    let dy = if prev.1 >= c.1 {
        prev.1 - c.1
    } else {
        c.1 - prev.1
    };
    let mut score: usize = 0;
    if dx == 2 {
        score = score + 1;
    }
    if dy == 2 {
        score = score + 1;
    }
    2 - score
}

/// A selection policy: given the unvisited neighbours of the walk's head,
/// the walk's target and the grid, keeps the preferred subset to draw from.
/// `prev` is the cell the walk stood on one step earlier, if any; policies
/// that favour keeping direction use it.
pub trait SelectionStrategy: Sized {
    /// The subset this policy keeps, as a function of its inputs.
    spec fn spec_select(
        &self,
        candidates: Seq<Position>,
        target: Position,
        grid: SquareGrid<NodeInfo>,
        prev: Option<Position>,
    ) -> Seq<Position>;

    /// Keeps the preferred subset of `candidates`.
    fn select(
        &self,
        candidates: &Vec<Position>,
        target: Position,
        grid: &SquareGrid<NodeInfo>,
        prev: Option<Position>,
    ) -> (r: Vec<Position>)
        ensures
            r@ == self.spec_select(candidates@, target, *grid, prev),
            forall|i: int| 0 <= i < r@.len() ==> candidates@.contains(#[trigger] r@[i]),
    ;
}

/// Copies a candidate vector, in order.
fn copy_candidates(candidates: &Vec<Position>) -> (r: Vec<Position>)
    ensures
        r@ == candidates@,
        forall|i: int| 0 <= i < r@.len() ==> candidates@.contains(#[trigger] r@[i]),
{
    let mut r: Vec<Position> = Vec::new();
    let mut i: usize = 0;
    while i < candidates.len()
        invariant
            i <= candidates@.len(),
            r@ == candidates@.take(i as int),
        decreases candidates@.len() - i,
    {
        r.push(candidates[i]);
        proof {
            assert(candidates@.take(i + 1) =~= candidates@.take(i as int).push(
                candidates@[i as int],
            ));
        }
        i = i + 1;
    }
    proof {
        assert(candidates@.take(candidates@.len() as int) =~= candidates@);
        assert forall|i2: int| 0 <= i2 < r@.len() implies candidates@.contains(
            #[trigger] r@[i2],
        ) by {
            assert(r@[i2] == candidates@[i2]);
        }
    }
    r
}

/// Keeps the candidates on which the ranking `f` is smallest; `losses` must
/// hold `f` evaluated on each candidate, in order.
fn keep_smallest(candidates: &Vec<Position>, losses: &Vec<usize>, Ghost(f): Ghost<
    spec_fn(Position) -> int,
>) -> (r: Vec<Position>)
    requires
        candidates@.len() == losses@.len(),
        forall|i: int| 0 <= i < losses@.len() ==> losses@[i] == f(#[trigger] candidates@[i]),
    ensures
        r@ == keep_matching(candidates@, f, seq_min(candidates@, f)),
        forall|i: int| 0 <= i < r@.len() ==> candidates@.contains(#[trigger] r@[i]),
{
    if candidates.len() == 0 {
        let r: Vec<Position> = Vec::new();
        return r;
    }
    let mut m: usize = losses[0];
    let mut i: usize = 1;
    while i < losses.len()
        invariant
            1 <= i <= losses@.len(),
            candidates@.len() == losses@.len(),
            forall|k: int| 0 <= k < losses@.len() ==> losses@[k] == f(#[trigger] candidates@[k]),
            m == seq_min(candidates@.take(i as int), f),
        decreases losses@.len() - i,
    {
        proof {
            assert(candidates@.take(i + 1).drop_last() =~= candidates@.take(i as int));
            assert(candidates@.take(i + 1).last() == candidates@[i as int]);
        }
        if losses[i] < m {
            m = losses[i];
        }
        i = i + 1;
    }
    proof {
        assert(candidates@.take(candidates@.len() as int) =~= candidates@);
    }
    let mut r: Vec<Position> = Vec::new();
    let mut i: usize = 0;
    while i < candidates.len()
        invariant
            i <= candidates@.len(),
            candidates@.len() == losses@.len(),
            forall|k: int| 0 <= k < losses@.len() ==> losses@[k] == f(#[trigger] candidates@[k]),
            m == seq_min(candidates@, f),
            r@ == keep_matching(candidates@.take(i as int), f, m as int),
        decreases candidates@.len() - i,
    {
        proof {
            assert(candidates@.take(i + 1).drop_last() =~= candidates@.take(i as int));
            assert(candidates@.take(i + 1).last() == candidates@[i as int]);
        }
        if losses[i] == m {
            r.push(candidates[i]);
        }
        i = i + 1;
    }
    proof {
        assert(candidates@.take(candidates@.len() as int) =~= candidates@);
        lemma_keep_matching_sound(candidates@, f, m as int);
    }
    r
}

/// Keeps only the candidates closest to the target under the Chebyshev
/// distance: the walk always moves greedily toward its goal.
pub struct GreedyStrategy;

impl SelectionStrategy for GreedyStrategy {
    open spec fn spec_select(
        &self,
        candidates: Seq<Position>,
        target: Position,
        grid: SquareGrid<NodeInfo>,
        prev: Option<Position>,
    ) -> Seq<Position> {
        keep_matching(candidates, cheb_to(target), seq_min(candidates, cheb_to(target)))
    }

    fn select(
        &self,
        candidates: &Vec<Position>,
        target: Position,
        grid: &SquareGrid<NodeInfo>,
        prev: Option<Position>,
    ) -> (r: Vec<Position>) {
        let ghost f = cheb_to(target);
        let mut losses: Vec<usize> = Vec::new();
        let mut i: usize = 0;
        while i < candidates.len()
            invariant
                i <= candidates@.len(),
                losses@.len() == i,
                forall|k: int| 0 <= k < i ==> losses@[k] == f(#[trigger] candidates@[k]),
                f == cheb_to(target),
            decreases candidates@.len() - i,
        {
            losses.push(chebyshev_distance(candidates[i], target));
            i = i + 1;
        }
        keep_smallest(candidates, &losses, Ghost(f))
    }
}

/// Keeps all unvisited neighbours: the walk chooses uniformly at random.
pub struct UniformStrategy;

impl SelectionStrategy for UniformStrategy {
    open spec fn spec_select(
        &self,
        candidates: Seq<Position>,
        target: Position,
        grid: SquareGrid<NodeInfo>,
        prev: Option<Position>,
    ) -> Seq<Position> {
        candidates
    }

    fn select(
        &self,
        candidates: &Vec<Position>,
        target: Position,
        grid: &SquareGrid<NodeInfo>,
        prev: Option<Position>,
    ) -> (r: Vec<Position>) {
        copy_candidates(candidates)
    }
}

/// Keeps only the first candidate in enumeration order, biasing the walk
/// toward one fixed direction.
pub struct FirstCandidateStrategy;

impl SelectionStrategy for FirstCandidateStrategy {
    open spec fn spec_select(
        &self,
        candidates: Seq<Position>,
        target: Position,
        grid: SquareGrid<NodeInfo>,
        prev: Option<Position>,
    ) -> Seq<Position> {
        if candidates.len() == 0 {
            Seq::empty()
        } else {
            seq![candidates[0]]
        }
    }

    fn select(
        &self,
        candidates: &Vec<Position>,
        target: Position,
        grid: &SquareGrid<NodeInfo>,
        prev: Option<Position>,
    ) -> (r: Vec<Position>) {
        let mut r: Vec<Position> = Vec::new();
        if candidates.len() > 0 {
            r.push(candidates[0]);
            proof {
                assert(candidates@.contains(candidates@[0]));
            }
        }
        proof {
            assert(r@ =~= self.spec_select(candidates@, target, *grid, prev));
        }
        r
    }
}

/// Prefers candidates that continue the walk's previous movement direction;
/// with no previous direction, keeps all candidates.
pub struct InertiaStrategy;

impl SelectionStrategy for InertiaStrategy {
    open spec fn spec_select(
        &self,
        candidates: Seq<Position>,
        target: Position,
        grid: SquareGrid<NodeInfo>,
        prev: Option<Position>,
    ) -> Seq<Position> {
        match prev {
            None => candidates,
            Some(lp) => keep_matching(
                candidates,
                inertia_loss(lp),
                seq_min(candidates, inertia_loss(lp)),
            ),
        }
    }

    fn select(
        &self,
        candidates: &Vec<Position>,
        target: Position,
        grid: &SquareGrid<NodeInfo>,
        prev: Option<Position>,
    ) -> (r: Vec<Position>) {
        match prev {
            None => copy_candidates(candidates),
            Some(lp) => {
                let ghost f = inertia_loss(lp);
                let mut losses: Vec<usize> = Vec::new();
                let mut i: usize = 0;
                while i < candidates.len()
                    invariant
                        i <= candidates@.len(),
                        losses@.len() == i,
                        forall|k: int| 0 <= k < i ==> losses@[k] == f(#[trigger] candidates@[k]),
                        f == inertia_loss(lp),
                    decreases candidates@.len() - i,
                {
                    losses.push(inertia_loss_of(lp, candidates[i]));
                    i = i + 1;
                }
                keep_smallest(candidates, &losses, Ghost(f))
            },
        }
    }
}

/// The cell the walk stood on one step before its head, if any.
pub open spec fn prev_of(p: Seq<Position>) -> Option<Position> {
    if p.len() >= 2 {
        Some(p[p.len() - 2])
    } else {
        None
    }
}

/// A step-wise randomized depth-first walk with backtracking over a grid of
/// visited flags, steered by a pluggable selection policy.
pub struct Walker<S: SelectionStrategy> {
    grid: SquareGrid<NodeInfo>,
    end_point: Position,
    current_path: Vec<Position>,
    strategy: S,
}

impl<S: SelectionStrategy> Walker<S> {
    /// The grid of visited flags.
    pub closed spec fn spec_grid(&self) -> SquareGrid<NodeInfo> {
        self.grid
    }

    /// The cell the walk is trying to reach.
    pub closed spec fn spec_end_point(&self) -> Position {
        self.end_point
    }

    /// The walk so far: the first element is the start, the last the head.
    pub closed spec fn path(&self) -> Seq<Position> {
        self.current_path@
    }

    /// The selection policy the walk was created with.
    pub closed spec fn spec_strategy(&self) -> S {
        self.strategy
    }

    /// Whether the walk has entered the cell at `p`.
    pub open spec fn visited(&self, p: Position) -> bool {
        self.spec_grid().spec_at(p).visited
    }

    /// The internal invariant of a walker: the grid is well formed, the goal
    /// lies inside it, and the path is a duplicate-free chain of adjacent
    /// in-bounds cells, all flagged as visited.
    pub open spec fn wf(&self) -> bool {
        &&& self.spec_grid().wf()
        &&& in_bounds(
            self.spec_grid().spec_width(),
            self.spec_grid().spec_height(),
            self.spec_end_point(),
        )
        &&& forall|i: int|
            0 <= i < self.path().len() ==> in_bounds(
                self.spec_grid().spec_width(),
                self.spec_grid().spec_height(),
                #[trigger] self.path()[i],
            ) && self.visited(self.path()[i])
        &&& forall|i: int, j: int| 0 <= i < j < self.path().len() ==> self.path()[i] != self.path()[j]
        &&& forall|i: int| 1 <= i < self.path().len() ==> adjacent(self.path()[i - 1], #[trigger] self.path()[i])
    }

    /// The positions of `s` whose cells are not yet visited, in order.
    pub open spec fn unvisited_filter(&self, s: Seq<Position>) -> Seq<Position>
        decreases s.len(),
    {
        if s.len() == 0 {
            Seq::empty()
        } else {
            let rest = self.unvisited_filter(s.drop_last());
            if !self.visited(s.last()) {
                rest.push(s.last())
            } else {
                rest
            }
        }
    }

    /// The neighbours of `from` that the walk may still enter, in
    /// enumeration order.
    pub open spec fn unvisited_neighbours(&self, from: Position) -> Seq<Position> {
        self.unvisited_filter(
            neighbour_seq(self.spec_grid().spec_width(), self.spec_grid().spec_height(), from),
        )
    }

    /// Every element of `unvisited_filter(s)` comes from `s` and is not yet
    /// visited.
    proof fn lemma_unvisited_filter_sound(&self, s: Seq<Position>)
        ensures
            forall|a: int|
                0 <= a < self.unvisited_filter(s).len() ==> s.contains(
                    #[trigger] self.unvisited_filter(s)[a],
                ) && !self.visited(self.unvisited_filter(s)[a]),
        decreases s.len(),
    {
        if s.len() > 0 {
            self.lemma_unvisited_filter_sound(s.drop_last());
            let rest = self.unvisited_filter(s.drop_last());
            assert forall|a: int| 0 <= a < self.unvisited_filter(s).len() implies s.contains(
                #[trigger] self.unvisited_filter(s)[a],
            ) && !self.visited(self.unvisited_filter(s)[a]) by {
                if a < rest.len() {
                    assert(self.unvisited_filter(s)[a] == rest[a]);
                    let w = choose|w: int| 0 <= w < s.drop_last().len() && s.drop_last()[w]
                        == rest[a];
                    assert(s[w] == rest[a]);
                    assert(s.contains(rest[a]));
                } else {
                    assert(self.unvisited_filter(s)[a] == s.last());
                    assert(s[s.len() - 1] == s.last());
                    assert(s.contains(s.last()));
                }
            }
        }
    }

    /// Creates a walker on `grid` that starts at `start_point`, seeks
    /// `end_point`, and selects its moves with `strategy`. The start cell is
    /// marked visited immediately.
    pub fn new(
        grid: SquareGrid<NodeInfo>,
        start_point: Position,
        end_point: Position,
        strategy: S,
    ) -> (r: Self)
        requires
            grid.wf(),
            in_bounds(grid.spec_width(), grid.spec_height(), start_point),
            in_bounds(grid.spec_width(), grid.spec_height(), end_point),
        ensures
            r.wf(),
            r.path() =~= seq![start_point],
            r.spec_end_point() == end_point,
            r.spec_strategy() == strategy,
            r.spec_grid().spec_width() == grid.spec_width(),
            r.spec_grid().spec_height() == grid.spec_height(),
            forall|q: Position|
                in_bounds(grid.spec_width(), grid.spec_height(), q) ==> #[trigger] r.visited(q) == (
                grid.spec_at(q).visited || q == start_point),
    {
        let mut grid = grid;
        grid.set(start_point, NodeInfo { visited: true });
        let mut current_path: Vec<Position> = Vec::new();
        current_path.push(start_point);
        Walker { grid, end_point, current_path, strategy }
    }

    /// Advances the walk by a single step. If the walk is already over (the
    /// path is empty, or its head already reached the end point), nothing
    /// changes. Otherwise the strategy picks a preferred subset of the
    /// head's unvisited neighbours: if any remain, one of them is chosen at
    /// random, pushed onto the path, and marked visited; if none remain, the
    /// head is popped off the path (the walk backtracks). Returns true iff
    /// the walk was still running when the call was made, so completion is
    /// reported on the call after the head reaches the end point.
    pub fn step(&mut self, rng: &mut rand::rngs::StdRng) -> (r: bool)
        requires
            old(self).wf(),
        ensures
            final(self).wf(),
            final(self).spec_end_point() == old(self).spec_end_point(),
            final(self).spec_strategy() == old(self).spec_strategy(),
            final(self).spec_grid().spec_width() == old(self).spec_grid().spec_width(),
            final(self).spec_grid().spec_height() == old(self).spec_grid().spec_height(),
            // visited flags are never reset within one walker's lifetime
            forall|q: Position|
                in_bounds(
                    old(self).spec_grid().spec_width(),
                    old(self).spec_grid().spec_height(),
                    q,
                ) && old(self).visited(q) ==> final(self).visited(q),
            r == (old(self).path().len() > 0 && old(self).path()[old(self).path().len() - 1]
                != old(self).spec_end_point()),
            (old(self).path().len() == 0 || old(self).path()[old(self).path().len() - 1]
                == old(self).spec_end_point()) ==> *final(self) == *old(self),
            (old(self).path().len() > 0 && old(self).path()[old(self).path().len() - 1]
                != old(self).spec_end_point()) ==> {
                let head = old(self).path()[old(self).path().len() - 1];
                let cands = old(self).unvisited_neighbours(head);
                let sel = old(self).spec_strategy().spec_select(
                    cands,
                    old(self).spec_end_point(),
                    old(self).spec_grid(),
                    prev_of(old(self).path()),
                );
                &&& sel.len() == 0 ==> final(self).path() == old(self).path().drop_last()
                    && final(self).spec_grid() == old(self).spec_grid()
                &&& sel.len() > 0 ==> exists|i: int|
                    {
                        &&& 0 <= i < sel.len()
                        &&& final(self).path() == old(self).path().push(#[trigger] sel[i])
                        &&& forall|q: Position|
                            in_bounds(
                                old(self).spec_grid().spec_width(),
                                old(self).spec_grid().spec_height(),
                                q,
                            ) ==> #[trigger] final(self).visited(q) == (old(self).visited(q) || q
                                == sel[i])
                    }
            },
    {
        let n = self.current_path.len();
        if n == 0 {
            return false;
        }
        let head = self.current_path[n - 1];
        if pos_eq(head, self.end_point) {
            return false;
        }
        let (w, h) = self.grid.len();
        let neighbours = neighbour_positions(w, h, head);
        let ghost nseq = neighbours@;
        let mut unvisited: Vec<Position> = Vec::new();
        let mut k: usize = 0;
        while k < neighbours.len()
            invariant
                k <= nseq.len(),
                neighbours@ == nseq,
                self == old(self),
                self.wf(),
                w == self.spec_grid().spec_width(),
                h == self.spec_grid().spec_height(),
                forall|a: int|
                    0 <= a < nseq.len() ==> in_bounds(w, h, #[trigger] nseq[a]) && adjacent(
                        head,
                        nseq[a],
                    ) && nseq[a] != head,
                unvisited@ == self.unvisited_filter(nseq.take(k as int)),
            decreases nseq.len() - k,
        {
            let q = neighbours[k];
            let is_unvisited = !self.grid.get(q).visited;
            proof {
                assert(nseq.take(k + 1).drop_last() =~= nseq.take(k as int));
                assert(nseq.take(k + 1).last() == nseq[k as int]);
            }
            if is_unvisited {
                unvisited.push(q);
            }
            k = k + 1;
        }
        proof {
            assert(nseq.take(nseq.len() as int) =~= nseq);
        }
        let prev: Option<Position> = if n >= 2 {
            Some(self.current_path[n - 2])
        } else {
            None
        };
        let preferred = self.strategy.select(&unvisited, self.end_point, &self.grid, prev);
        let ghost sel = preferred@;
        if preferred.len() > 0 {
            let ri = rand_below(rng, preferred.len());
            let chosen = preferred[ri];
            proof {
                assert(unvisited@.contains(chosen));
                self.lemma_unvisited_filter_sound(nseq);
                let a = choose|a: int| 0 <= a < unvisited@.len() && unvisited@[a] == chosen;
                assert(unvisited@[a] == chosen);
                assert(nseq.contains(chosen) && !self.visited(chosen));
                let b = choose|b: int| 0 <= b < nseq.len() && nseq[b] == chosen;
                assert(nseq[b] == chosen);
                assert(in_bounds(w, h, chosen) && adjacent(head, chosen));
                assert forall|i: int| 0 <= i < self.path().len() implies #[trigger] self.path()[i]
                    != chosen by {
                    assert(self.visited(self.path()[i]));
                }
            }
            let ghost mid = *self;
            self.current_path.push(chosen);
            self.grid.set(chosen, NodeInfo { visited: true });
            proof {
                assert forall|q: Position| in_bounds(w, h, q) implies #[trigger] self.visited(q)
                    == (mid.visited(q) || q == chosen) by {
                    if q != chosen {
                        assert(self.spec_grid().spec_at(q) == mid.spec_grid().spec_at(q));
                    }
                }
                assert(self.path() == mid.path().push(chosen));
            }
            true
        } else {
            self.current_path.pop();
            true
        }
    }

    /// A read-only snapshot of the walk so far, start-first and head-last.
    pub fn current_path(&self) -> (r: Vec<Position>)
        ensures
            r@ == self.path(),
    {
        let mut r: Vec<Position> = Vec::new();
        let mut i: usize = 0;
        while i < self.current_path.len()
            invariant
                i <= self.path().len(),
                r@ == self.path().take(i as int),
            decreases self.path().len() - i,
        {
            r.push(self.current_path[i]);
            proof {
                assert(self.path().take(i + 1) =~= self.path().take(i as int).push(
                    self.path()[i as int],
                ));
            }
            i = i + 1;
        }
        proof {
            assert(self.path().take(self.path().len() as int) =~= self.path());
        }
        r
    }
}

/// The walk never revisits a cell, and every consecutive pair of cells on
/// its path is a pair of grid neighbours.
pub proof fn lemma_path_no_revisits_and_adjacent<S: SelectionStrategy>(w: &Walker<S>)
    requires
        w.wf(),
    ensures
        forall|i: int, j: int| 0 <= i < j < w.path().len() ==> w.path()[i] != w.path()[j],
        forall|i: int| 1 <= i < w.path().len() ==> adjacent(w.path()[i - 1], #[trigger] w.path()[i]),
{
}

} // verus!
