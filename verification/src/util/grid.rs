//! Positions on a hexagonal grid and a dense, fixed-size container of cells.
//!
//! Positions use axial coordinates: a cell has six neighbors, listed as a ring
//! (east, south-east, south-west, west, north-west, north-east), so that
//! consecutive directions point to cells that are themselves adjacent.

use vstd::arithmetic::div_mod::lemma_fundamental_div_mod;
use vstd::arithmetic::div_mod::lemma_fundamental_div_mod_converse;
use vstd::arithmetic::div_mod::lemma_mod_pos_bound;
use vstd::arithmetic::div_mod::lemma_multiply_divide_lt;
use vstd::arithmetic::mul::lemma_mul_is_commutative;
use vstd::seq_lib::seq_to_set_is_finite;
use vstd::prelude::*;

verus! {

/// A cell coordinate.
#[derive(Clone, Copy, Debug, PartialEq, Eq, Hash, Structural)]
pub struct Pos {
    pub x: i32,
    pub y: i32,
}

/// Horizontal offset of the neighbor in direction `dir` of the ring.
pub open spec fn dx(dir: int) -> int {
    if dir == 0 || dir == 5 {
        1
    } else if dir == 2 || dir == 3 {
        -1
    } else {
        0
    }
}

/// Vertical offset of the neighbor in direction `dir` of the ring.
pub open spec fn dy(dir: int) -> int {
    if dir == 1 || dir == 2 {
        1
    } else if dir == 4 || dir == 5 {
        -1
    } else {
        0
    }
}

/// `b` is the neighbor of `a` in direction `dir`.
pub open spec fn steps_to(a: Pos, dir: int, b: Pos) -> bool {
    b.x == a.x + dx(dir) && b.y == a.y + dy(dir)
}

/// `b` is one of the six neighbors of `a`.
pub open spec fn adjacent(a: Pos, b: Pos) -> bool {
    exists|dir: int| 0 <= dir < 6 && #[trigger] steps_to(a, dir, b)
}

impl Pos {
    /// Both coordinates are far enough from the limits of `i32` for every
    /// neighbor to be a position.
    pub open spec fn steppable(self) -> bool {
        i32::MIN < self.x < i32::MAX && i32::MIN < self.y < i32::MAX
    }

    /// The neighbor in direction `dir` of the ring.
    pub open spec fn neighbor_spec(self, dir: int) -> Pos {
        Pos { x: (self.x + dx(dir)) as i32, y: (self.y + dy(dir)) as i32 }
    }

    /// The neighbor in direction `dir` of the ring.
    pub fn neighbor(self, dir: usize) -> (n: Pos)
        requires
            dir < 6,
            self.steppable(),
        ensures
            n == self.neighbor_spec(dir as int),
            steps_to(self, dir as int, n),
    {
        match dir {
            0 => Pos { x: self.x + 1, y: self.y },
            1 => Pos { x: self.x, y: self.y + 1 },
            2 => Pos { x: self.x - 1, y: self.y + 1 },
            3 => Pos { x: self.x - 1, y: self.y },
            4 => Pos { x: self.x, y: self.y - 1 },
            _ => Pos { x: self.x + 1, y: self.y - 1 },
        }
    }

    /// The six neighbors, in ring order.
    pub fn neighbors(self) -> (ring: [Pos; 6])
        requires
            self.steppable(),
        ensures
            forall|dir: int| 0 <= dir < 6 ==> #[trigger] ring[dir] == self.neighbor_spec(dir),
    {
        [
            self.neighbor(0),
            self.neighbor(1),
            self.neighbor(2),
            self.neighbor(3),
            self.neighbor(4),
            self.neighbor(5),
        ]
    }
}

/// The mathematical content of a grid: its dimensions and the value of each
/// cell.
pub struct GridView<T> {
    pub width: nat,
    pub height: nat,
    pub cells: Map<Pos, T>,
}

impl<T> GridView<T> {
    /// `p` addresses a cell of the grid.
    pub open spec fn contains(self, p: Pos) -> bool {
        0 <= p.x < self.width && 0 <= p.y < self.height
    }

    /// `p` addresses a cell that is not on the outer frame.
    pub open spec fn is_inner(self, p: Pos) -> bool {
        1 <= p.x < self.width - 1 && 1 <= p.y < self.height - 1
    }

    /// `p` addresses a cell of the outer frame.
    pub open spec fn is_border(self, p: Pos) -> bool {
        self.contains(p) && !self.is_inner(p)
    }

    /// The cells are exactly the positions inside the dimensions, every one
    /// of them has six neighbors that are positions, and their number fits
    /// the machine.
    pub open spec fn wf(self) -> bool {
        &&& self.width <= i32::MAX
        &&& self.height <= i32::MAX
        &&& self.width * self.height <= usize::MAX
        &&& forall|p: Pos| #[trigger] self.cells.dom().contains(p) <==> self.contains(p)
    }

    #[verifier::inline]
    pub open spec fn spec_index(self, p: Pos) -> T {
        self.cells[p]
    }

    /// The grid with the cell at `p` replaced by `value`.
    pub open spec fn set(self, p: Pos, value: T) -> Self {
        GridView { width: self.width, height: self.height, cells: self.cells.insert(p, value) }
    }

    /// The grid of the given dimensions whose cells all hold `value`.
    pub open spec fn filled(width: nat, height: nat, value: T) -> Self {
        GridView {
            width,
            height,
            cells: Map::new(|p: Pos| 0 <= p.x < width && 0 <= p.y < height, |p: Pos| value),
        }
    }

    /// The `i`-th cell in row-major order.
    pub open spec fn position_at(self, i: int) -> Pos {
        Pos { x: (i % self.width as int) as i32, y: (i / self.width as int) as i32 }
    }

    /// The place of the cell `p` in row-major order.
    pub open spec fn index_of(self, p: Pos) -> int {
        p.y * self.width + p.x
    }

    /// All cells, row by row.
    pub open spec fn positions(self) -> Seq<Pos> {
        Seq::new(self.width * self.height, |i: int| self.position_at(i))
    }

    /// Width of the part inside the frame.
    pub open spec fn inner_width(self) -> nat {
        if self.width >= 2 {
            (self.width - 2) as nat
        } else {
            0
        }
    }

    /// Height of the part inside the frame.
    pub open spec fn inner_height(self) -> nat {
        if self.height >= 2 {
            (self.height - 2) as nat
        } else {
            0
        }
    }

    /// The `i`-th cell inside the frame, in row-major order.
    pub open spec fn inner_position_at(self, i: int) -> Pos {
        Pos {
            x: (1 + i % self.inner_width() as int) as i32,
            y: (1 + i / self.inner_width() as int) as i32,
        }
    }

    /// All cells inside the frame, row by row.
    pub open spec fn inner_positions(self) -> Seq<Pos> {
        Seq::new(self.inner_width() * self.inner_height(), |i: int| self.inner_position_at(i))
    }
}

/// The cell at place `i` of the row-major order lies in the grid, at that
/// place.
pub proof fn lemma_position_at<T>(grid: GridView<T>, i: int)
    requires
        grid.wf(),
        0 <= i < grid.width * grid.height,
    ensures
        grid.contains(grid.position_at(i)),
        grid.index_of(grid.position_at(i)) == i,
        grid.positions()[i] == grid.position_at(i),
{
    let w = grid.width as int;
    let h = grid.height as int;
    assert(w > 0) by (nonlinear_arith)
        requires
            0 <= i < w * h,
            w >= 0,
    ;
    lemma_mod_pos_bound(i, w);
    lemma_multiply_divide_lt(i, w, h);
    lemma_fundamental_div_mod(i, w);
    lemma_mul_is_commutative(w, i / w);
    assert(0 <= i / w) by (nonlinear_arith)
        requires
            0 <= i,
            w > 0,
    ;
}

/// The cell at place `i` of the row-major order of the inside lies inside the
/// frame.
pub proof fn lemma_inner_position_at<T>(grid: GridView<T>, i: int)
    requires
        grid.wf(),
        0 <= i < grid.inner_width() * grid.inner_height(),
    ensures
        grid.is_inner(grid.inner_position_at(i)),
        grid.inner_positions()[i] == grid.inner_position_at(i),
{
    let w = grid.inner_width() as int;
    let h = grid.inner_height() as int;
    assert(w > 0) by (nonlinear_arith)
        requires
            0 <= i < w * h,
            w >= 0,
    ;
    lemma_mod_pos_bound(i, w);
    lemma_multiply_divide_lt(i, w, h);
    assert(0 <= i / w) by (nonlinear_arith)
        requires
            0 <= i,
            w > 0,
    ;
}

/// Every cell of the grid has a place in the row-major order.
pub proof fn lemma_index_of<T>(grid: GridView<T>, p: Pos)
    requires
        grid.wf(),
        grid.contains(p),
    ensures
        0 <= grid.index_of(p) < grid.width * grid.height,
        grid.positions()[grid.index_of(p)] == p,
        grid.position_at(grid.index_of(p)) == p,
{
    let w = grid.width as int;
    lemma_index_in_range(p.x as int, p.y as int, w, grid.height as int);
    lemma_fundamental_div_mod_converse(p.y * w + p.x, w, p.y as int, p.x as int);
}

/// The row-major order lists every cell of the grid exactly once, so the grid
/// has finitely many cells: `width * height` of them.
pub proof fn lemma_cells_finite<T>(grid: GridView<T>)
    requires
        grid.wf(),
    ensures
        grid.positions().no_duplicates(),
        grid.positions().to_set() == grid.cells.dom(),
        grid.cells.dom().finite(),
        grid.cells.dom().len() == grid.width * grid.height,
{
    let all = grid.positions();
    assert forall|i: int, j: int| 0 <= i < all.len() && 0 <= j < all.len() && i != j implies all[i]
        != all[j] by {
        lemma_position_at(grid, i);
        lemma_position_at(grid, j);
    }
    assert forall|p: Pos| all.to_set().contains(p) <==> grid.cells.dom().contains(p) by {
        if all.to_set().contains(p) {
            let i = choose|i: int| 0 <= i < all.len() && all[i] == p;
            lemma_position_at(grid, i);
        }
        if grid.cells.dom().contains(p) {
            lemma_index_of(grid, p);
            assert(all[grid.index_of(p)] == p);
        }
    }
    assert(all.to_set() =~= grid.cells.dom());
    seq_to_set_is_finite(all);
    all.unique_seq_to_set();
}

/// A dense grid of `width` by `height` cells, addressed by position.
#[derive(Debug, PartialEq, Eq)]
pub struct Grid<T> {
    width: usize,
    height: usize,
    cells: Vec<T>,
}

impl<T: Copy> View for Grid<T> {
    type V = GridView<T>;

    closed spec fn view(&self) -> GridView<T> {
        GridView {
            width: self.width as nat,
            height: self.height as nat,
            cells: Map::new(
                |p: Pos| 0 <= p.x < self.width && 0 <= p.y < self.height,
                |p: Pos| self.cells@[p.y * self.width + p.x],
            ),
        }
    }
}

impl<T: Copy> Clone for Grid<T> {
    /// A grid of the same dimensions with the same cells.
    fn clone(&self) -> (copy: Self)
        ensures
            copy@ == self@,
            self.wf() ==> copy.wf(),
    {
        let mut cells: Vec<T> = Vec::new();
        let mut i: usize = 0;
        while i < self.cells.len()
            invariant
                i <= self.cells@.len(),
                cells@ == self.cells@.take(i as int),
            decreases self.cells@.len() - i,
        {
            cells.push(self.cells[i]);
            assert(cells@ =~= self.cells@.take(i + 1));
            i += 1;
        }
        assert(cells@ =~= self.cells@);
        Grid { width: self.width, height: self.height, cells }
    }
}

proof fn lemma_index_in_range(x: int, y: int, width: int, height: int)
    requires
        0 <= x < width,
        0 <= y < height,
    ensures
        0 <= y * width + x < width * height,
{
    assert(y * width + x < width * height) by (nonlinear_arith)
        requires
            0 <= x < width,
            0 <= y < height,
    ;
    assert(0 <= y * width) by (nonlinear_arith)
        requires
            0 <= y,
            0 < width,
    ;
}

proof fn lemma_index_injective(p: Pos, q: Pos, width: int)
    requires
        0 <= p.x < width,
        0 <= q.x < width,
        p.y * width + p.x == q.y * width + q.x,
    ensures
        p == q,
{
    lemma_fundamental_div_mod_converse(p.y * width + p.x, width, p.y as int, p.x as int);
    lemma_fundamental_div_mod_converse(q.y * width + q.x, width, q.y as int, q.x as int);
}

impl<T: Copy> Grid<T> {
    /// The storage matches the dimensions.
    pub closed spec fn inv(&self) -> bool {
        self.cells@.len() == self.width * self.height && self.width * self.height <= usize::MAX
    }

    /// The grid is in a consistent state.
    pub open spec fn wf(&self) -> bool {
        self.inv() && self@.wf()
    }

    /// A grid of the given dimensions with every cell set to `value`.
    pub fn new(width: usize, height: usize, value: T) -> (grid: Self)
        requires
            width <= i32::MAX,
            height <= i32::MAX,
            width * height <= usize::MAX,
        ensures
            grid.wf(),
            grid@ == GridView::filled(width as nat, height as nat, value),
    {
        let count: usize = width * height;
        let mut cells: Vec<T> = Vec::new();
        let mut i: usize = 0;
        while i < count
            invariant
                i <= count,
                cells@.len() == i,
                forall|j: int| 0 <= j < i ==> cells@[j] == value,
            decreases count - i,
        {
            cells.push(value);
            i += 1;
        }
        let grid = Grid { width, height, cells };
        proof {
            assert forall|p: Pos| 0 <= p.x < width && 0 <= p.y < height implies grid.cells@[p.y
                * width + p.x] == value by {
                lemma_index_in_range(p.x as int, p.y as int, width as int, height as int);
            }
            assert(grid@.cells =~= GridView::filled(width as nat, height as nat, value).cells);
        }
        grid
    }

    /// Number of columns.
    pub fn width(&self) -> (width: usize)
        ensures
            width == self@.width,
    {
        self.width
    }

    /// Number of rows.
    pub fn height(&self) -> (height: usize)
        ensures
            height == self@.height,
    {
        self.height
    }

    /// Whether `p` addresses a cell of the grid.
    pub fn contains(&self, p: Pos) -> (inside: bool)
        ensures
            inside == self@.contains(p),
    {
        0 <= p.x && (p.x as usize) < self.width && 0 <= p.y && (p.y as usize) < self.height
    }

    /// Whether `p` addresses a cell that is not on the outer frame.
    pub fn is_inner(&self, p: Pos) -> (inside: bool)
        ensures
            inside == self@.is_inner(p),
    {
        1 <= p.x && (p.x as usize) + 1 < self.width && 1 <= p.y && (p.y as usize) + 1
            < self.height
    }

    fn index_of(&self, p: Pos) -> (i: usize)
        requires
            self.wf(),
            self@.contains(p),
        ensures
            i == p.y * self.width + p.x,
            i < self.cells@.len(),
    {
        proof {
            lemma_index_in_range(p.x as int, p.y as int, self.width as int, self.height as int);
        }
        (p.y as usize) * self.width + (p.x as usize)
    }

    /// The neighbor of `p` in direction `dir`, where the grid holds one.
    pub fn neighbor_in(&self, p: Pos, dir: usize) -> (found: Option<Pos>)
        requires
            self.wf(),
            dir < 6,
        ensures
            match found {
                Some(n) => steps_to(p, dir as int, n) && self@.contains(n),
                None => forall|n: Pos| steps_to(p, dir as int, n) ==> !self@.contains(n),
            },
    {
        let (step_x, step_y): (i64, i64) = match dir {
            0 => (1, 0),
            1 => (0, 1),
            2 => (-1, 1),
            3 => (-1, 0),
            4 => (0, -1),
            _ => (1, -1),
        };
        let x: i64 = p.x as i64 + step_x;
        let y: i64 = p.y as i64 + step_y;
        if 0 <= x && x < self.width as i64 && 0 <= y && y < self.height as i64 {
            Some(Pos { x: x as i32, y: y as i32 })
        } else {
            None
        }
    }

    /// The value of the cell at `p`.
    pub fn get(&self, p: Pos) -> (value: T)
        requires
            self.wf(),
            self@.contains(p),
        ensures
            value == self@[p],
    {
        let i: usize = self.index_of(p);
        self.cells[i]
    }

    /// Replaces the value of the cell at `p`.
    pub fn set(&mut self, p: Pos, value: T)
        requires
            old(self).wf(),
            old(self)@.contains(p),
        ensures
            final(self).wf(),
            final(self)@ == old(self)@.set(p, value),
    {
        let i: usize = self.index_of(p);
        self.cells.set(i, value);
        proof {
            let width = self.width as int;
            let updated = old(self)@.cells.insert(p, value);
            assert forall|q: Pos| #[trigger] self@.cells.dom().contains(q) implies self@.cells[q]
                == updated[q] by {
                if q != p {
                    if q.y * width + q.x == i {
                        lemma_index_injective(p, q, width);
                    }
                    lemma_index_in_range(q.x as int, q.y as int, width, self.height as int);
                }
            }
            assert(self@.cells =~= updated);
        }
    }

    /// All cells, row by row.
    pub fn positions(&self) -> (all: Vec<Pos>)
        requires
            self.wf(),
        ensures
            all@ == self@.positions(),
    {
        let count: usize = self.cells.len();
        let mut all: Vec<Pos> = Vec::new();
        let mut i: usize = 0;
        while i < count
            invariant
                self.wf(),
                count == self.width * self.height,
                i <= count,
                all@.len() == i,
                forall|j: int| 0 <= j < i ==> all@[j] == self@.position_at(j),
            decreases count - i,
        {
            proof {
                assert(self.width > 0) by (nonlinear_arith)
                    requires
                        i < self.width * self.height,
                ;
                lemma_multiply_divide_lt(i as int, self.width as int, self.height as int);
            }
            all.push(Pos { x: (i % self.width) as i32, y: (i / self.width) as i32 });
            i += 1;
        }
        proof {
            assert(all@ =~= self@.positions());
        }
        all
    }

    /// All cells inside the frame, row by row.
    pub fn inner_positions(&self) -> (inner: Vec<Pos>)
        requires
            self.wf(),
        ensures
            inner@ == self@.inner_positions(),
    {
        let mut inner: Vec<Pos> = Vec::new();
        if self.width < 3 || self.height < 3 {
            proof {
                assert(self@.inner_width() * self@.inner_height() == 0) by (nonlinear_arith)
                    requires
                        self@.inner_width() == 0 || self@.inner_height() == 0,
                ;
                assert(inner@ =~= self@.inner_positions());
            }
            return inner;
        }
        let inner_width: usize = self.width - 2;
        let inner_height: usize = self.height - 2;
        proof {
            assert(inner_width * inner_height <= self.width * self.height) by (nonlinear_arith)
                requires
                    0 <= inner_width <= self.width,
                    0 <= inner_height <= self.height,
            ;
        }
        let count: usize = inner_width * inner_height;
        let mut i: usize = 0;
        while i < count
            invariant
                self.wf(),
                inner_width == self@.inner_width(),
                inner_height == self@.inner_height(),
                inner_width == self.width - 2,
                inner_height == self.height - 2,
                inner_width > 0,
                count == inner_width * inner_height,
                i <= count,
                inner@.len() == i,
                forall|j: int| 0 <= j < i ==> inner@[j] == self@.inner_position_at(j),
            decreases count - i,
        {
            proof {
                lemma_multiply_divide_lt(i as int, inner_width as int, inner_height as int);
            }
            inner.push(Pos { x: (1 + i % inner_width) as i32, y: (1 + i / inner_width) as i32 });
            i += 1;
        }
        proof {
            assert(inner@ =~= self@.inner_positions());
        }
        inner
    }
}

} // verus!
