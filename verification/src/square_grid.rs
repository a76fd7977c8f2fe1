use vstd::prelude::*;

use crate::grid::{
    adjacent, chebyshev, in_bounds, lemma_row_major_index_in_range, lemma_row_major_index_injective,
    neighbour_positions, neighbour_seq, row_major_index, Grid, Position,
};

verus! {

/// A fixed-size grid of items indexed by an `(x, y)` position, stored
/// densely in row-major order.
pub struct SquareGrid<Item> {
    width: usize,
    height: usize,
    items: Vec<Item>,
}

impl<Item> SquareGrid<Item> {
    /// The width this grid was created with.
    pub closed spec fn spec_width(&self) -> usize {
        self.width
    }

    /// The height this grid was created with.
    pub closed spec fn spec_height(&self) -> usize {
        self.height
    }

    /// The items in row-major order.
    pub closed spec fn items(&self) -> Seq<Item> {
        self.items@
    }

    /// There is exactly one item for every in-bounds position.
    pub open spec fn wf(&self) -> bool {
        self.items().len() == self.spec_width() * self.spec_height()
    }

    /// The item stored at an in-bounds position.
    pub open spec fn spec_at(&self, p: Position) -> Item {
        self.items()[row_major_index(self.spec_width(), p)]
    }

    /// Constructs a grid of the given dimensions with every item set to a
    /// value produced by `Item::default`.
    pub fn new(width: usize, height: usize) -> (r: Self) where Item: Default
        requires
            width * height <= usize::MAX,
        ensures
            r.wf(),
            r.spec_width() == width,
            r.spec_height() == height,
            forall|i: int|
                0 <= i < r.items().len() ==> call_ensures(Item::default, (), #[trigger] r.items()[i]),
    {
        let total: usize = width * height;
        let mut items: Vec<Item> = Vec::new();
        let mut i: usize = 0;
        while i < total
            invariant
                i <= total,
                items@.len() == i,
                forall|k: int| 0 <= k < i ==> call_ensures(Item::default, (), #[trigger] items@[k]),
            decreases total - i,
        {
            items.push(Item::default());
            i = i + 1;
        }
        SquareGrid { width, height, items }
    }

    /// The dimensions of this grid, as `(width, height)`.
    pub fn len(&self) -> (r: Position)
        ensures
            r == (self.spec_width(), self.spec_height()),
    {
        (self.width, self.height)
    }

    /// The row-major index of an in-bounds position.
    fn inner_index(&self, index: Position) -> (r: usize)
        requires
            self.wf(),
            in_bounds(self.spec_width(), self.spec_height(), index),
        ensures
            r == row_major_index(self.spec_width(), index),
            r < self.items().len(),
    {
        proof {
            lemma_row_major_index_in_range(self.width, self.height, index);
        }
        // bind the store's length so the index is known to fit in a usize
        let _n = self.items.len();
        let (x, y) = index;
        y * self.width + x
    }

    /// Reads the item at an in-bounds position.
    pub fn get(&self, index: Position) -> (r: &Item)
        requires
            self.wf(),
            in_bounds(self.spec_width(), self.spec_height(), index),
        ensures
            *r == self.spec_at(index),
    {
        let i = self.inner_index(index);
        &self.items[i]
    }

    /// Overwrites the item at an in-bounds position; every other item and
    /// the dimensions are unchanged.
    pub fn set(&mut self, index: Position, item: Item)
        requires
            old(self).wf(),
            in_bounds(old(self).spec_width(), old(self).spec_height(), index),
        ensures
            final(self).wf(),
            final(self).spec_width() == old(self).spec_width(),
            final(self).spec_height() == old(self).spec_height(),
            final(self).spec_at(index) == item,
            forall|q: Position|
                in_bounds(old(self).spec_width(), old(self).spec_height(), q) && q != index
                    ==> final(self).spec_at(q) == old(self).spec_at(q),
    {
        let i = self.inner_index(index);
        self.items.set(i, item);
        proof {
            assert forall|q: Position|
                in_bounds(self.width, self.height, q) && q != index implies self.spec_at(q) == old(
                self,
            ).spec_at(q) by {
                lemma_row_major_index_in_range(self.width, self.height, q);
                if row_major_index(self.width, q) == row_major_index(self.width, index) {
                    lemma_row_major_index_injective(self.width, self.height, q, index);
                }
            }
        }
    }

    /// Every item paired with its position, in row-major order.
    pub fn iter(&self) -> (r: Vec<(Position, Item)>) where Item: Copy
        requires
            self.wf(),
        ensures
            r@.len() == self.items().len(),
            forall|k: int|
                0 <= k < r@.len() ==> {
                    let (p, v) = #[trigger] r@[k];
                    &&& in_bounds(self.spec_width(), self.spec_height(), p)
                    &&& row_major_index(self.spec_width(), p) == k
                    &&& v == self.spec_at(p)
                },
    {
        let mut r: Vec<(Position, Item)> = Vec::new();
        let mut y: usize = 0;
        while y < self.height
            invariant
                self.wf(),
                y <= self.height,
                r@.len() == y * self.spec_width(),
                forall|k: int|
                    0 <= k < r@.len() ==> {
                        let (p, v) = #[trigger] r@[k];
                        &&& in_bounds(self.spec_width(), self.spec_height(), p)
                        &&& row_major_index(self.spec_width(), p) == k
                        &&& v == self.spec_at(p)
                    },
            decreases self.height - y,
        {
            let mut x: usize = 0;
            while x < self.width
                invariant
                    self.wf(),
                    y < self.height,
                    x <= self.width,
                    r@.len() == y * self.spec_width() + x,
                    forall|k: int|
                        0 <= k < r@.len() ==> {
                            let (p, v) = #[trigger] r@[k];
                            &&& in_bounds(self.spec_width(), self.spec_height(), p)
                            &&& row_major_index(self.spec_width(), p) == k
                            &&& v == self.spec_at(p)
                        },
                decreases self.width - x,
            {
                proof {
                    lemma_row_major_index_in_range(self.width, self.height, (x, y));
                }
                r.push(((x, y), *self.get((x, y))));
                x = x + 1;
            }
            proof {
                assert(y * self.spec_width() + self.spec_width() == (y + 1)
                    * self.spec_width()) by (nonlinear_arith);
            }
            y = y + 1;
        }
        proof {
            assert(r@.len() == self.items().len()) by (nonlinear_arith)
                requires
                    r@.len() == self.spec_height() * self.spec_width(),
                    self.items().len() == self.spec_width() * self.spec_height(),
            ;
        }
        r
    }
}

impl<Item> Grid<Position> for SquareGrid<Item> {
    /// A valid query position: the grid is well-formed and the position lies
    /// inside it.
    open spec fn valid_index(&self, index: Position) -> bool {
        self.wf() && in_bounds(self.spec_width(), self.spec_height(), index)
    }

    /// Enumerates the in-bounds neighbours of `index`, diagonals included,
    /// in the crate's fixed enumeration order.
    fn neighbours(&self, index: Position) -> (r: Vec<Position>)
        ensures
            r@ == neighbour_seq(self.spec_width(), self.spec_height(), index),
            forall|i: int|
                0 <= i < r@.len() ==> r@[i] != index && in_bounds(
                    self.spec_width(),
                    self.spec_height(),
                    #[trigger] r@[i],
                ) && adjacent(index, r@[i]),
    {
        neighbour_positions(self.width, self.height, index)
    }

    /// The Chebyshev distance between `a` and `b`: a lower bound on the
    /// number of 8-directional moves between them, saturated at `u32::MAX`
    /// for grids larger than that range.
    fn distance(&self, a: Position, b: Position) -> (r: u32)
        ensures
            chebyshev(a, b) <= u32::MAX ==> r == chebyshev(a, b),
    {
        let dx = if a.0 >= b.0 {
            a.0 - b.0
        } else {
            b.0 - a.0
        };
        let dy = if a.1 >= b.1 {
            a.1 - b.1
        } else {
            b.1 - a.1
        };
        let big = if dx >= dy {
            dx
        } else {
            dy
        };
        let cap: usize = u32::MAX as usize;
        if big >= cap {
            u32::MAX
        } else {
            big as u32
        }
    }
}

} // verus!
