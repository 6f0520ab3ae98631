//! The grid of cells and the two mutation primitives, `birth` and `kill`.
use vstd::prelude::*;
use crate::topology::{neighbor, neighbors_of};

verus! {

/// Whether a cell is alive.
#[derive(Clone, Copy, Debug, PartialEq, Eq, Structural)]
pub enum CellState {
    Alive,
    Dead,
}

/// One position of the grid: its coordinates, its state, and how many of its
/// eight neighbours are alive.
#[derive(Clone, Copy, Debug, PartialEq, Eq, Structural)]
pub struct Cell {
    pub x: u32,
    pub y: u32,
    pub neighbors: u32,
    pub state: CellState,
}

/// What can go wrong when building or addressing a grid.
#[derive(Clone, Copy, Debug, PartialEq, Eq, Structural)]
pub enum GridError {
    /// A coordinate lies outside the grid.
    CoordinateOutOfBounds,
    /// An axis is shorter than three cells, so a cell would be its own neighbour.
    DegenerateGrid,
}

/// The mathematical content of a grid: its size and its cells in row-major order.
pub ghost struct GridModel {
    pub width: int,
    pub height: int,
    pub cells: Seq<Cell>,
}

impl GridModel {
    pub open spec fn in_bounds(self, x: int, y: int) -> bool {
        0 <= x < self.width && 0 <= y < self.height
    }

    pub open spec fn index(self, x: int, y: int) -> int {
        y * self.width + x
    }

    pub open spec fn cell(self, x: int, y: int) -> Cell {
        self.cells[self.index(x, y)]
    }

    pub open spec fn alive(self, x: int, y: int) -> bool {
        self.cell(x, y).state is Alive
    }

    /// 1 if the `k`-th neighbour of `(x, y)` is alive, else 0.
    pub open spec fn live_at(self, x: int, y: int, k: int) -> int {
        let p = neighbor(x, y, k, self.width, self.height);
        if self.alive(p.0, p.1) { 1 } else { 0 }
    }

    /// The number of live cells among the eight toroidal neighbours of `(x, y)`.
    pub open spec fn live_neighbors(self, x: int, y: int) -> int {
        self.live_at(x, y, 0) + self.live_at(x, y, 1) + self.live_at(x, y, 2) + self.live_at(x, y, 3)
            + self.live_at(x, y, 4) + self.live_at(x, y, 5) + self.live_at(x, y, 6)
            + self.live_at(x, y, 7)
    }

    /// Well-formedness: the layout holds and every count equals the live cells
    /// around it.
    pub open spec fn wf(self) -> bool {
        &&& self.laid_out()
        &&& forall|x: int, y: int|
            self.in_bounds(x, y) ==> #[trigger] self.cell(x, y).neighbors == self.live_neighbors(x, y)
    }

    /// The size is at least 3 by 3 and every cell carries its own coordinates.
    pub open spec fn laid_out(self) -> bool {
        &&& 3 <= self.width <= u32::MAX
        &&& 3 <= self.height <= u32::MAX
        &&& self.cells.len() == self.width * self.height
        &&& forall|i: int|
            0 <= i < self.cells.len() ==> {
                &&& (#[trigger] self.cells[i]).x < self.width
                &&& self.cells[i].y < self.height
                &&& self.index(self.cells[i].x as int, self.cells[i].y as int) == i
            }
        &&& forall|x: int, y: int|
            self.in_bounds(x, y) ==> {
                &&& 0 <= #[trigger] self.index(x, y) < self.cells.len()
                &&& self.cell(x, y).x == x
                &&& self.cell(x, y).y == y
            }
    }

    /// The coordinates of the live cells.
    pub open spec fn live_set(self) -> Set<(u32, u32)> {
        Set::new(|p: (u32, u32)| self.in_bounds(p.0 as int, p.1 as int) && self.alive(p.0 as int, p.1 as int))
    }
}

/// 1 if the `k`-th neighbour of `(x, y)` is `(a, b)`, else 0.
pub open spec fn hit(x: int, y: int, k: int, a: int, b: int, w: int, h: int) -> int {
    if neighbor(x, y, k, w, h) == (a, b) { 1 } else { 0 }
}

/// How many of the first `n` neighbours of `(x, y)` are `(a, b)`.
pub open spec fn hits_before(x: int, y: int, n: int, a: int, b: int, w: int, h: int) -> int {
    (if 0 < n { hit(x, y, 0, a, b, w, h) } else { 0 }) + (if 1 < n { hit(x, y, 1, a, b, w, h) } else { 0 })
        + (if 2 < n { hit(x, y, 2, a, b, w, h) } else { 0 }) + (if 3 < n { hit(x, y, 3, a, b, w, h) } else { 0 })
        + (if 4 < n { hit(x, y, 4, a, b, w, h) } else { 0 }) + (if 5 < n { hit(x, y, 5, a, b, w, h) } else { 0 })
        + (if 6 < n { hit(x, y, 6, a, b, w, h) } else { 0 }) + (if 7 < n { hit(x, y, 7, a, b, w, h) } else { 0 })
}

/// A rectangular torus of cells.
pub struct Grid {
    width: u32,
    height: u32,
    cells: Vec<Cell>,
}

impl View for Grid {
    type V = GridModel;

    closed spec fn view(&self) -> GridModel {
        GridModel { width: self.width as int, height: self.height as int, cells: self.cells@ }
    }
}

proof fn lemma_index_bounds(w: int, h: int, x: int, y: int)
    requires
        0 <= x < w,
        0 <= y < h,
    ensures
        0 <= y * w + x < w * h,
{
    assert(0 <= y * w) by (nonlinear_arith)
        requires 0 <= y, 0 <= w;
    assert(y * w + w <= w * h) by (nonlinear_arith)
        requires 0 <= y < h, 0 <= w;
}

proof fn lemma_index_unique(w: int, x1: int, y1: int, x2: int, y2: int)
    requires
        0 <= x1 < w,
        0 <= x2 < w,
        0 <= y1,
        0 <= y2,
        y1 * w + x1 == y2 * w + x2,
    ensures
        x1 == x2,
        y1 == y2,
{
    if y1 < y2 {
        assert(y1 * w + w <= y2 * w) by (nonlinear_arith)
            requires y1 < y2, 0 <= w;
    } else if y2 < y1 {
        assert(y2 * w + w <= y1 * w) by (nonlinear_arith)
            requires y2 < y1, 0 <= w;
    }
}

/// Stepping from `a` to `x` by one offset is stepping back from `x` to `a`.
proof fn lemma_hit_symmetric(m: GridModel, x: int, y: int, a: int, b: int)
    requires
        m.wf(),
        m.in_bounds(x, y),
        m.in_bounds(a, b),
    ensures
        hits_before(x, y, 8, a, b, m.width, m.height) == hits_before(a, b, 8, x, y, m.width, m.height),
{
}

/// A grid of `width` by `height` dead cells, each with a count of zero; an axis
/// shorter than three is refused.
pub fn new_grid(width: u32, height: u32) -> (r: Result<Grid, GridError>)
    ensures
        r is Err <==> width < 3 || height < 3,
        r is Err ==> r->Err_0 == GridError::DegenerateGrid,
        r is Ok ==> {
            let m = r->Ok_0@;
            &&& m.wf()
            &&& m.width == width
            &&& m.height == height
            &&& m.live_set() == Set::<(u32, u32)>::empty()
        },
{
    if width < 3 || height < 3 {
        return Err(GridError::DegenerateGrid);
    }
    let mut cells: Vec<Cell> = Vec::new();
    let ghost w = width as int;
    let mut y: u32 = 0;
    while y < height
        invariant
            w == width,
            3 <= width,
            y <= height,
            cells@.len() == y * w,
            forall|i: int|
                0 <= i < cells@.len() ==> {
                    &&& (#[trigger] cells@[i]).x < w
                    &&& cells@[i].y < y
                    &&& cells@[i].y * w + cells@[i].x == i
                    &&& cells@[i].neighbors == 0
                    &&& cells@[i].state == CellState::Dead
                },
        decreases height - y,
    {
        let mut x: u32 = 0;
        while x < width
            invariant
                w == width,
                3 <= width,
                y < height,
                x <= width,
                cells@.len() == y * w + x,
                forall|i: int|
                    0 <= i < cells@.len() ==> {
                        &&& (#[trigger] cells@[i]).x < w
                        &&& cells@[i].y <= y
                        &&& cells@[i].y * w + cells@[i].x == i
                        &&& cells@[i].neighbors == 0
                        &&& cells@[i].state == CellState::Dead
                    },
            decreases width - x,
        {
            cells.push(Cell { x, y, neighbors: 0, state: CellState::Dead });
            x = x + 1;
        }
        proof {
            assert(y * w + w == (y + 1) * w) by (nonlinear_arith);
            assert forall|i: int| 0 <= i < cells@.len() implies (#[trigger] cells@[i]).y < y + 1 by {}
        }
        y = y + 1;
    }
    let g = Grid { width, height, cells };
    proof {
        let m = g@;
        assert(y * w == w * m.height) by (nonlinear_arith)
            requires y == m.height;
        assert forall|x: int, y: int| m.in_bounds(x, y) implies {
            &&& 0 <= #[trigger] m.index(x, y) < m.cells.len()
            &&& m.cell(x, y).x == x
            &&& m.cell(x, y).y == y
            &&& m.cell(x, y).neighbors == m.live_neighbors(x, y)
        } by {
            lemma_index_bounds(m.width, m.height, x, y);
            let c = m.cell(x, y);
            lemma_index_unique(m.width, x, y, c.x as int, c.y as int);
            assert forall|k: int| 0 <= k < 8 implies m.live_at(x, y, k) == 0 by {
                let p = neighbor(x, y, k, m.width, m.height);
                lemma_index_bounds(m.width, m.height, p.0, p.1);
            }
        }
        assert(m.live_set() =~= Set::<(u32, u32)>::empty()) by {
            assert forall|p: (u32, u32)| m.live_set().contains(p) implies false by {
                lemma_index_bounds(m.width, m.height, p.0 as int, p.1 as int);
            }
        }
    }
    Ok(g)
}

/// Two well-formed grids of one size with the same live cells are equal: the
/// counts and coordinates follow from the live cells.
pub proof fn lemma_model_determined(m1: GridModel, m2: GridModel)
    requires
        m1.wf(),
        m2.wf(),
        m1.width == m2.width,
        m1.height == m2.height,
        m1.live_set() == m2.live_set(),
    ensures
        m1 == m2,
{
    assert forall|x: int, y: int| m1.in_bounds(x, y) implies m1.alive(x, y) == m2.alive(x, y) by {
        assert(m1.live_set().contains((x as u32, y as u32)) == m1.alive(x, y));
        assert(m2.live_set().contains((x as u32, y as u32)) == m2.alive(x, y));
    }
    assert forall|i: int| 0 <= i < m1.cells.len() implies m1.cells[i] == m2.cells[i] by {
        let c1 = m1.cells[i];
        let c2 = m2.cells[i];
        lemma_index_unique(m1.width, c1.x as int, c1.y as int, c2.x as int, c2.y as int);
        assert(m1.cell(c1.x as int, c1.y as int) == c1);
        assert(m2.cell(c1.x as int, c1.y as int) == c2);
        let (x, y) = (c1.x as int, c1.y as int);
        assert forall|k: int| 0 <= k < 8 implies m1.live_at(x, y, k) == m2.live_at(x, y, k) by {
            let p = neighbor(x, y, k, m1.width, m1.height);
            assert(m1.in_bounds(p.0, p.1));
        }
        assert(c1.neighbors == c2.neighbors);
        assert(m1.in_bounds(x, y));
        assert(m1.alive(x, y) == m2.alive(x, y));
        assert(c1.state == c2.state);
    }
    assert(m1.cells =~= m2.cells);
}

/// After `(x, y)` alone turns from dead to alive, or back, every count that was
/// moved by one at the neighbours of `(x, y)` again equals the live cells around it.
proof fn lemma_flip_keeps_counts(m0: GridModel, m1: GridModel, x: int, y: int, up: bool)
    requires
        m0.wf(),
        m1.laid_out(),
        m0.in_bounds(x, y),
        m1.width == m0.width,
        m1.height == m0.height,
        m0.alive(x, y) != up,
        m1.alive(x, y) == up,
        forall|a: int, b: int| m0.in_bounds(a, b) && (a, b) != (x, y) ==> #[trigger] m1.alive(a, b) == m0.alive(a, b),
        forall|a: int, b: int|
            m0.in_bounds(a, b) ==> #[trigger] m1.cell(a, b).neighbors == m0.cell(a, b).neighbors + if up {
                hits_before(x, y, 8, a, b, m0.width, m0.height)
            } else {
                -hits_before(x, y, 8, a, b, m0.width, m0.height)
            },
    ensures
        m1.wf(),
{
    assert forall|a: int, b: int| m1.in_bounds(a, b) implies #[trigger] m1.cell(a, b).neighbors == m1.live_neighbors(a, b) by {
        lemma_hit_symmetric(m0, x, y, a, b);
        assert forall|k: int| 0 <= k < 8 implies m1.live_at(a, b, k) == m0.live_at(a, b, k) + if up {
            hit(a, b, k, x, y, m0.width, m0.height)
        } else {
            -hit(a, b, k, x, y, m0.width, m0.height)
        } by {
            let p = neighbor(a, b, k, m0.width, m0.height);
            assert(m0.in_bounds(p.0, p.1));
        }
    }
}

/// Brings the cell at `(x, y)` to life; only when it was dead are the counts of
/// its eight neighbours raised by one.
pub fn birth(grid: &mut Grid, x: u32, y: u32) -> (r: Result<(), GridError>)
    requires
        old(grid)@.wf(),
    ensures
        r is Err <==> !old(grid)@.in_bounds(x as int, y as int),
        r is Err ==> r->Err_0 == GridError::CoordinateOutOfBounds && final(grid)@ == old(grid)@,
        final(grid)@.wf(),
        final(grid)@.width == old(grid)@.width,
        final(grid)@.height == old(grid)@.height,
        r is Ok ==> final(grid)@.live_set() == old(grid)@.live_set().insert((x, y)),
        old(grid)@.alive(x as int, y as int) ==> final(grid)@ == old(grid)@,
{
    if x >= grid.width || y >= grid.height {
        return Err(GridError::CoordinateOutOfBounds);
    }
    let ghost m0 = grid@;
    let i = grid.slot(x, y);
    let mut c = grid.cells[i];
    if c.state == CellState::Dead {
        grid.shift_neighbors(x, y, true);
        c = grid.cells[i];
        c.state = CellState::Alive;
        let ghost before = grid@;
        grid.cells.set(i, c);
        proof {
            let m1 = grid@;
            assert forall|xx: int, yy: int| m1.in_bounds(xx, yy) implies {
                &&& 0 <= #[trigger] m1.index(xx, yy) < m1.cells.len()
                &&& m1.cell(xx, yy).x == xx
                &&& m1.cell(xx, yy).y == yy
            } by {
                assert(before.cell(xx, yy).x == xx);
            }
            assert forall|j: int| 0 <= j < m1.cells.len() implies {
                &&& (#[trigger] m1.cells[j]).x < m1.width
                &&& m1.cells[j].y < m1.height
                &&& m1.index(m1.cells[j].x as int, m1.cells[j].y as int) == j
            } by {
                assert(before.cells[j].x < before.width);
            }
            assert forall|a: int, b: int| m0.in_bounds(a, b) && (a, b) != (x as int, y as int) implies #[trigger] m1.alive(a, b)
                == m0.alive(a, b) by {
                assert(before.cell(a, b).x == a && before.cell(a, b).y == b);
                assert(m0.cells[m0.index(a, b)].state == before.cells[m0.index(a, b)].state);
            }
            lemma_flip_keeps_counts(m0, m1, x as int, y as int, true);
            assert(m1.live_set() =~= m0.live_set().insert((x, y)));
        }
    } else {
        proof {
            assert(m0.live_set() =~= m0.live_set().insert((x, y)));
        }
    }
    Ok(())
}

/// Kills the cell at `(x, y)`; only when it was alive are the counts of its
/// eight neighbours lowered by one.
pub fn kill(grid: &mut Grid, x: u32, y: u32) -> (r: Result<(), GridError>)
    requires
        old(grid)@.wf(),
    ensures
        r is Err <==> !old(grid)@.in_bounds(x as int, y as int),
        r is Err ==> r->Err_0 == GridError::CoordinateOutOfBounds && final(grid)@ == old(grid)@,
        final(grid)@.wf(),
        final(grid)@.width == old(grid)@.width,
        final(grid)@.height == old(grid)@.height,
        r is Ok ==> final(grid)@.live_set() == old(grid)@.live_set().remove((x, y)),
        !old(grid)@.alive(x as int, y as int) ==> final(grid)@ == old(grid)@,
{
    if x >= grid.width || y >= grid.height {
        return Err(GridError::CoordinateOutOfBounds);
    }
    let ghost m0 = grid@;
    let i = grid.slot(x, y);
    let mut c = grid.cells[i];
    if c.state == CellState::Alive {
        grid.shift_neighbors(x, y, false);
        c = grid.cells[i];
        c.state = CellState::Dead;
        let ghost before = grid@;
        grid.cells.set(i, c);
        proof {
            let m1 = grid@;
            assert forall|xx: int, yy: int| m1.in_bounds(xx, yy) implies {
                &&& 0 <= #[trigger] m1.index(xx, yy) < m1.cells.len()
                &&& m1.cell(xx, yy).x == xx
                &&& m1.cell(xx, yy).y == yy
            } by {
                assert(before.cell(xx, yy).x == xx);
            }
            assert forall|j: int| 0 <= j < m1.cells.len() implies {
                &&& (#[trigger] m1.cells[j]).x < m1.width
                &&& m1.cells[j].y < m1.height
                &&& m1.index(m1.cells[j].x as int, m1.cells[j].y as int) == j
            } by {
                assert(before.cells[j].x < before.width);
            }
            assert forall|a: int, b: int| m0.in_bounds(a, b) && (a, b) != (x as int, y as int) implies #[trigger] m1.alive(a, b)
                == m0.alive(a, b) by {
                assert(before.cell(a, b).x == a && before.cell(a, b).y == b);
                assert(m0.cells[m0.index(a, b)].state == before.cells[m0.index(a, b)].state);
            }
            lemma_flip_keeps_counts(m0, m1, x as int, y as int, false);
            assert(m1.live_set() =~= m0.live_set().remove((x, y)));
        }
    } else {
        proof {
            assert(m0.live_set() =~= m0.live_set().remove((x, y)));
        }
    }
    Ok(())
}

impl Grid {
    /// Adds one to (when `up`) or takes one from the count of each of the eight
    /// neighbours of `(x, y)`.
    #[verifier::spinoff_prover]
    #[verifier::rlimit(60)]
    fn shift_neighbors(&mut self, x: u32, y: u32, up: bool)
        requires
            old(self)@.wf(),
            old(self)@.in_bounds(x as int, y as int),
            !up ==> old(self)@.alive(x as int, y as int),
        ensures
            final(self)@.laid_out(),
            final(self)@.width == old(self)@.width,
            final(self)@.height == old(self)@.height,
            final(self)@.cells.len() == old(self)@.cells.len(),
            forall|i: int|
                0 <= i < old(self)@.cells.len() ==> (#[trigger] final(self)@.cells[i]).state == old(self)@.cells[i].state,
            forall|a: int, b: int|
                old(self)@.in_bounds(a, b) ==> #[trigger] final(self)@.cell(a, b).neighbors == old(self)@.cell(a, b).neighbors
                    + if up {
                    hits_before(x as int, y as int, 8, a, b, old(self)@.width, old(self)@.height)
                } else {
                    -hits_before(x as int, y as int, 8, a, b, old(self)@.width, old(self)@.height)
                },
    {
        let ghost m0 = self@;
        let ghost w = m0.width;
        let ghost h = m0.height;
        let ns = neighbors_of(x, y, self.width, self.height);
        proof {
            assert forall|a: int, b: int| m0.in_bounds(a, b) implies #[trigger] m0.cell(a, b).neighbors
                >= hits_before(x as int, y as int, 8, a, b, w, h) || up by {
                if !up {
                    lemma_hit_symmetric(m0, x as int, y as int, a, b);
                }
            }
        }
        let mut k: usize = 0;
        while k < 8
            invariant
                0 <= k <= 8,
                m0.wf(),
                m0.in_bounds(x as int, y as int),
                w == m0.width,
                h == m0.height,
                ns@.len() == 8,
                forall|j: int|
                    0 <= j < 8 ==> {
                        &&& (#[trigger] ns@[j]).0 == neighbor(x as int, y as int, j, w, h).0
                        &&& ns@[j].1 == neighbor(x as int, y as int, j, w, h).1
                    },
                forall|a: int, b: int| m0.in_bounds(a, b) ==> #[trigger] m0.cell(a, b).neighbors
                    >= hits_before(x as int, y as int, 8, a, b, w, h) || up,
                self@.laid_out(),
                self@.width == w,
                self@.height == h,
                self@.cells.len() == m0.cells.len(),
                forall|i: int|
                    0 <= i < m0.cells.len() ==> (#[trigger] self@.cells[i]).state == m0.cells[i].state,
                forall|a: int, b: int|
                    m0.in_bounds(a, b) ==> #[trigger] self@.cell(a, b).neighbors == m0.cell(a, b).neighbors
                        + if up {
                        hits_before(x as int, y as int, k as int, a, b, w, h)
                    } else {
                        -hits_before(x as int, y as int, k as int, a, b, w, h)
                    },
            decreases 8 - k,
        {
            let (nx, ny) = ns[k];
            assert(hit(x as int, y as int, k as int, nx as int, ny as int, w, h) == 1);
            let i = self.slot(nx, ny);
            let mut c = self.cells[i];
            assert(c == self@.cell(nx as int, ny as int));
            if up {
                assert(m0.cell(nx as int, ny as int).neighbors <= 8);
                c.neighbors = c.neighbors + 1;
            } else {
                c.neighbors = c.neighbors - 1;
            }
            let ghost before = self@;
            self.cells.set(i, c);
            proof {
                let after = self@;
                assert forall|a: int, b: int| m0.in_bounds(a, b) implies #[trigger] after.cell(a, b).neighbors
                    == m0.cell(a, b).neighbors + if up {
                    hits_before(x as int, y as int, k + 1, a, b, w, h)
                } else {
                    -hits_before(x as int, y as int, k + 1, a, b, w, h)
                } by {
                    if a != nx || b != ny {
                        assert(before.cell(a, b).x == a && before.cell(a, b).y == b);
                        assert(before.index(a, b) != i);
                    }
                }
                assert forall|xx: int, yy: int| after.in_bounds(xx, yy) implies {
                    &&& 0 <= #[trigger] after.index(xx, yy) < after.cells.len()
                    &&& after.cell(xx, yy).x == xx
                    &&& after.cell(xx, yy).y == yy
                } by {
                    assert(before.cell(xx, yy).x == xx);
                }
                assert forall|j: int| 0 <= j < after.cells.len() implies {
                    &&& (#[trigger] after.cells[j]).x < after.width
                    &&& after.cells[j].y < after.height
                    &&& after.index(after.cells[j].x as int, after.cells[j].y as int) == j
                } by {
                    assert(before.cells[j].x < before.width);
                }
            }
            k = k + 1;
        }
    }

    /// The number of columns.
    pub fn width(&self) -> (r: u32)
        ensures
            r == self@.width,
    {
        self.width
    }

    /// The number of rows.
    pub fn height(&self) -> (r: u32)
        ensures
            r == self@.height,
    {
        self.height
    }

    /// The position of `(x, y)` in the row-major cell sequence.
    fn slot(&self, x: u32, y: u32) -> (r: usize)
        requires
            self@.laid_out(),
            self@.in_bounds(x as int, y as int),
        ensures
            r == self@.index(x as int, y as int),
            r < self@.cells.len(),
    {
        // The length is a `usize`, so the index below it cannot overflow.
        let _len = self.cells.len();
        assert(0 <= self@.index(x as int, y as int) < self@.cells.len());
        (y as usize) * (self.width as usize) + (x as usize)
    }

    /// The number of cells, `width * height`.
    pub fn cell_count(&self) -> (r: usize)
        ensures
            r == self@.cells.len(),
    {
        self.cells.len()
    }

    /// The `i`-th cell in row-major order.
    pub fn cell_at(&self, i: usize) -> (r: Cell)
        requires
            i < self@.cells.len(),
        ensures
            r == self@.cells[i as int],
    {
        self.cells[i]
    }

    /// The cell at `(x, y)`, or an error outside the grid.
    pub fn cell(&self, x: u32, y: u32) -> (r: Result<Cell, GridError>)
        requires
            self@.wf(),
        ensures
            r is Err <==> !self@.in_bounds(x as int, y as int),
            r is Err ==> r->Err_0 == GridError::CoordinateOutOfBounds,
            r is Ok ==> r->Ok_0 == self@.cell(x as int, y as int),
    {
        if x >= self.width || y >= self.height {
            return Err(GridError::CoordinateOutOfBounds);
        }
        let i = self.slot(x, y);
        Ok(self.cells[i])
    }

    /// Whether the cell at `(x, y)` is alive, or an error outside the grid.
    pub fn is_alive(&self, x: u32, y: u32) -> (r: Result<bool, GridError>)
        requires
            self@.wf(),
        ensures
            r is Err <==> !self@.in_bounds(x as int, y as int),
            r is Err ==> r->Err_0 == GridError::CoordinateOutOfBounds,
            r is Ok ==> r->Ok_0 == self@.alive(x as int, y as int),
    {
        match self.cell(x, y) {
            Ok(c) => Ok(c.state == CellState::Alive),
            Err(e) => Err(e),
        }
    }

    /// The live-neighbour count kept at `(x, y)`, or an error outside the grid.
    pub fn neighbor_count(&self, x: u32, y: u32) -> (r: Result<u32, GridError>)
        requires
            self@.wf(),
        ensures
            r is Err <==> !self@.in_bounds(x as int, y as int),
            r is Err ==> r->Err_0 == GridError::CoordinateOutOfBounds,
            r is Ok ==> r->Ok_0 == self@.live_neighbors(x as int, y as int),
    {
        match self.cell(x, y) {
            Ok(c) => Ok(c.neighbors),
            Err(e) => Err(e),
        }
    }
}

} // verus!
