//! The grid data model: directions, points, cells with wall flags, and the
//! `Maze` grid itself with its bounds-checked query and mutation surface.
//!
//! The central invariant is wall symmetry: for two adjacent cells, the wall
//! flag on the shared edge reads the same from either side. `Maze::wf` states
//! it, the constructor establishes it, and every mutator preserves it, because
//! the only sanctioned wall mutator (`take_down_wall` and its checked form
//! `remove_wall_pair`) clears both sides of one edge atomically.

use vstd::prelude::*;

use crate::counting::sum_grid;

verus! {

/// One of the four axis-aligned directions of the grid.
#[derive(Clone, Copy, PartialEq, Eq, Structural, Debug, Hash)]
pub enum Dir {
    N,
    S,
    E,
    W,
}

impl Dir {
    /// The direction pointing the opposite way.
    pub open spec fn opposite_spec(self) -> Dir {
        match self {
            Dir::N => Dir::S,
            Dir::S => Dir::N,
            Dir::E => Dir::W,
            Dir::W => Dir::E,
        }
    }

    pub fn opposite(&self) -> (r: Dir)
        ensures
            r == self.opposite_spec(),
    {
        match self {
            Dir::N => Dir::S,
            Dir::S => Dir::N,
            Dir::E => Dir::W,
            Dir::W => Dir::E,
        }
    }
}

/// A grid coordinate: `x` grows eastward, `y` grows southward, origin at the
/// top-left corner.
#[derive(Clone, Copy, PartialEq, Eq, Structural, Debug, Hash)]
pub struct Point {
    pub x: usize,
    pub y: usize,
}

impl View for Point {
    type V = (int, int);

    open spec fn view(&self) -> (int, int) {
        (self.x as int, self.y as int)
    }
}

impl Point {
    pub fn new(x: usize, y: usize) -> (p: Point)
        ensures
            p.x == x,
            p.y == y,
    {
        Point { x, y }
    }
}

/// One grid cell: four wall flags and a visited marker that only the carver
/// writes.
#[derive(Clone, Copy, PartialEq, Eq, Structural, Debug, Hash)]
pub struct Cell {
    pub filled: bool,
    pub wall_n: bool,
    pub wall_s: bool,
    pub wall_e: bool,
    pub wall_w: bool,
}

impl Cell {
    /// The wall flag of this cell toward direction `d`.
    pub open spec fn wall_spec(self, d: Dir) -> bool {
        match d {
            Dir::N => self.wall_n,
            Dir::S => self.wall_s,
            Dir::E => self.wall_e,
            Dir::W => self.wall_w,
        }
    }

    /// A cell as it starts out: unvisited, with all four walls present.
    pub open spec fn walled_spec() -> Cell {
        Cell { filled: false, wall_n: true, wall_s: true, wall_e: true, wall_w: true }
    }

    pub fn new() -> (c: Cell)
        ensures
            c == Cell::walled_spec(),
    {
        Cell { filled: false, wall_n: true, wall_s: true, wall_e: true, wall_w: true }
    }

    /// Clears this cell's wall flag toward `d`; the other flags and the
    /// visited marker keep their values.
    pub fn remove_wall(&mut self, d: Dir)
        ensures
            final(self).filled == old(self).filled,
            forall|e: Dir| final(self).wall_spec(e) == (e != d && old(self).wall_spec(e)),
    {
        match d {
            Dir::N => self.wall_n = false,
            Dir::S => self.wall_s = false,
            Dir::E => self.wall_e = false,
            Dir::W => self.wall_w = false,
        }
    }
}

/// Why a grid operation was refused.
#[derive(Clone, Copy, PartialEq, Eq, Structural, Debug)]
pub enum MazeError {
    /// A grid was asked for with zero width or zero height.
    InvalidDimension,
    /// A coordinate lies outside the grid.
    OutOfBounds,
    /// A wall removal was asked for between two cells that are not
    /// 4-neighbors.
    NotAdjacent,
}

/// A rectangular grid of cells, stored as `width` columns of `height` cells
/// each, addressed as `cells[x][y]`.
#[derive(Debug, PartialEq, Hash)]
pub struct Maze {
    pub cells: Vec<Vec<Cell>>,
    pub width: usize,
    pub height: usize,
    /// Whether a consumer that renders the maze should emit one snapshot per
    /// carve step; the algorithms themselves never read it.
    pub trace: bool,
}

/// The points of `s`, as coordinate pairs.
pub open spec fn points_of(s: Seq<Point>) -> Seq<(int, int)> {
    s.map_values(|q: Point| q@)
}

/// Whether the unordered pair `{p, q}` is a pair of 4-neighbors (Manhattan
/// distance exactly one).
pub open spec fn grid_adjacent(p: (int, int), q: (int, int)) -> bool {
    ||| (q.0 == p.0 + 1 && q.1 == p.1)
    ||| (q.0 == p.0 - 1 && q.1 == p.1)
    ||| (q.0 == p.0 && q.1 == p.1 + 1)
    ||| (q.0 == p.0 && q.1 == p.1 - 1)
}

/// The direction from `p` toward an adjacent point `q`.
pub open spec fn dir_to(p: (int, int), q: (int, int)) -> Dir {
    if q.0 == p.0 + 1 && q.1 == p.1 {
        Dir::E
    } else if q.0 == p.0 - 1 && q.1 == p.1 {
        Dir::W
    } else if q.0 == p.0 && q.1 == p.1 + 1 {
        Dir::S
    } else {
        Dir::N
    }
}

impl Maze {
    /// The dimensions are positive and small enough that a count of all cells
    /// fits in a `usize`.
    pub open spec fn dims_ok(self) -> bool {
        &&& self.width >= 1
        &&& self.height >= 1
        &&& self.width * self.height <= usize::MAX
    }

    /// The cell storage really is `width` columns of `height` cells.
    pub open spec fn grid_ok(self) -> bool {
        &&& self.cells@.len() == self.width
        &&& forall|x: int|
            0 <= x < self.width ==> (#[trigger] self.cells@[x])@.len() == self.height
    }

    pub open spec fn in_bounds(self, p: (int, int)) -> bool {
        0 <= p.0 < self.width && 0 <= p.1 < self.height
    }

    /// The cell at `(x, y)`.
    pub open spec fn cell(self, x: int, y: int) -> Cell {
        self.cells@[x]@[y]
    }

    /// Whether the cell at `(x, y)` has its wall toward `d`.
    pub open spec fn wall(self, x: int, y: int, d: Dir) -> bool {
        self.cell(x, y).wall_spec(d)
    }

    /// Whether the cell at `(x, y)` carries the visited marker.
    pub open spec fn visited(self, x: int, y: int) -> bool {
        self.cell(x, y).filled
    }

    /// Wall symmetry: on every edge between two adjacent in-bounds cells, the
    /// two facing wall flags agree.
    pub open spec fn symmetric(self) -> bool {
        &&& forall|x: int, y: int|
            0 <= x && x + 1 < self.width && 0 <= y < self.height ==> (#[trigger] self.wall(
                x,
                y,
                Dir::E,
            )) == self.wall(x + 1, y, Dir::W)
        &&& forall|x: int, y: int|
            0 <= x < self.width && 0 <= y && y + 1 < self.height ==> (#[trigger] self.wall(
                x,
                y,
                Dir::S,
            )) == self.wall(x, y + 1, Dir::N)
    }

    /// Well-formedness: every constructor establishes this and every method
    /// preserves it.
    pub open spec fn wf(self) -> bool {
        self.dims_ok() && self.grid_ok() && self.symmetric()
    }

    /// A grid fresh from the constructor: every cell unvisited and fully
    /// walled.
    pub open spec fn all_walled(self) -> bool {
        forall|x: int, y: int|
            self.in_bounds((x, y)) ==> #[trigger] self.cell(x, y) == Cell::walled_spec()
    }

    /// `p` and `q` are adjacent in-bounds cells with no wall on their shared
    /// edge: the passage between them is open.
    pub open spec fn open_adj(self, p: (int, int), q: (int, int)) -> bool {
        &&& self.in_bounds(p)
        &&& self.in_bounds(q)
        &&& grid_adjacent(p, q)
        &&& !self.wall(p.0, p.1, dir_to(p, q))
    }

    /// The two mazes have the same dimensions and trace flag.
    pub open spec fn same_shape(self, other: Maze) -> bool {
        &&& self.width == other.width
        &&& self.height == other.height
        &&& self.trace == other.trace
    }

    /// Builds a `width` by `height` grid with every cell fully walled and
    /// unvisited; refuses zero dimensions.
    pub fn new(width: usize, height: usize, trace: bool) -> (r: Result<Maze, MazeError>)
        requires
            width * height <= usize::MAX,
        ensures
            match r {
                Ok(m) => {
                    &&& m.wf()
                    &&& m.width == width
                    &&& m.height == height
                    &&& m.trace == trace
                    &&& m.all_walled()
                },
                Err(e) => e == MazeError::InvalidDimension && (width == 0 || height == 0),
            },
    {
        if width == 0 || height == 0 {
            return Err(MazeError::InvalidDimension);
        }
        let mut cells: Vec<Vec<Cell>> = Vec::new();
        let mut x: usize = 0;
        while x < width
            invariant
                x <= width,
                cells@.len() == x,
                forall|i: int|
                    0 <= i < x ==> (#[trigger] cells@[i])@.len() == height,
                forall|i: int, j: int|
                    0 <= i < x && 0 <= j < height ==> (#[trigger] cells@[i]@[j])
                        == Cell::walled_spec(),
            decreases width - x,
        {
            let mut col: Vec<Cell> = Vec::new();
            let mut y: usize = 0;
            while y < height
                invariant
                    y <= height,
                    col@.len() == y,
                    forall|j: int| 0 <= j < y ==> #[trigger] col@[j] == Cell::walled_spec(),
                decreases height - y,
            {
                col.push(Cell::new());
                y = y + 1;
            }
            cells.push(col);
            x = x + 1;
        }
        Ok(Maze { cells, width, height, trace })
    }

    /// Bounds-checked wall query.
    pub fn has_wall(&self, p: Point, d: Dir) -> (r: Result<bool, MazeError>)
        requires
            self.wf(),
        ensures
            match r {
                Ok(b) => self.in_bounds(p@) && b == self.wall(p@.0, p@.1, d),
                Err(e) => e == MazeError::OutOfBounds && !self.in_bounds(p@),
            },
    {
        if p.x < self.width && p.y < self.height {
            let c = &self.cells[p.x][p.y];
            Ok(match d {
                Dir::N => c.wall_n,
                Dir::S => c.wall_s,
                Dir::E => c.wall_e,
                Dir::W => c.wall_w,
            })
        } else {
            Err(MazeError::OutOfBounds)
        }
    }

    /// Bounds-checked query of the visited marker.
    pub fn is_visited(&self, p: Point) -> (r: Result<bool, MazeError>)
        requires
            self.wf(),
        ensures
            match r {
                Ok(b) => self.in_bounds(p@) && b == self.visited(p@.0, p@.1),
                Err(e) => e == MazeError::OutOfBounds && !self.in_bounds(p@),
            },
    {
        if p.x < self.width && p.y < self.height {
            Ok(self.cells[p.x][p.y].filled)
        } else {
            Err(MazeError::OutOfBounds)
        }
    }

    /// Bounds-checked setter of the visited marker; walls and everything else
    /// keep their values.
    pub fn mark_visited(&mut self, p: Point) -> (r: Result<(), MazeError>)
        requires
            old(self).wf(),
        ensures
            final(self).wf(),
            final(self).same_shape(*old(self)),
            match r {
                Ok(()) => {
                    &&& old(self).in_bounds(p@)
                    &&& forall|x: int, y: int|
                        old(self).in_bounds((x, y)) ==> #[trigger] final(self).cell(x, y) == (
                        if x == p@.0 && y == p@.1 {
                            Cell { filled: true, ..old(self).cell(x, y) }
                        } else {
                            old(self).cell(x, y)
                        })
                },
                Err(e) => {
                    &&& e == MazeError::OutOfBounds
                    &&& !old(self).in_bounds(p@)
                    &&& *final(self) == *old(self)
                },
            },
    {
        if p.x < self.width && p.y < self.height {
            let col = &mut self.cells[p.x];
            let c = &mut col[p.y];
            c.filled = true;
            proof {
                assert forall|x: int, y: int|
                    self.in_bounds((x, y)) implies #[trigger] self.cell(x, y) == (
                    if x == p@.0 && y == p@.1 {
                        Cell { filled: true, ..old(self).cell(x, y) }
                    } else {
                        old(self).cell(x, y)
                    }) by {}
                assert forall|x: int, y: int, d: Dir|
                    self.in_bounds((x, y)) implies #[trigger] self.wall(x, y, d) == old(
                    self,
                ).wall(x, y, d) by {}
            }
            Ok(())
        } else {
            Err(MazeError::OutOfBounds)
        }
    }
    /// Wall symmetry, stated over the queries: for any two adjacent
    /// in-bounds cells, the wall seen from one toward the other equals the
    /// wall seen back. It holds of every well-formed maze, so at every point
    /// of the grid's life: construction establishes `wf` and every mutator
    /// preserves it.
    pub proof fn lemma_wall_symmetry(self, p1: (int, int), p2: (int, int))
        requires
            self.wf(),
            self.in_bounds(p1),
            self.in_bounds(p2),
            grid_adjacent(p1, p2),
        ensures
            self.wall(p1.0, p1.1, dir_to(p1, p2)) == self.wall(p2.0, p2.1, dir_to(p2, p1)),
    {
    }

    /// Whether `(x, y, d)` names one of the two sides of the shared edge of
    /// the adjacent pair `{p, q}`.
    pub open spec fn on_shared_edge(p: (int, int), q: (int, int), x: int, y: int, d: Dir) -> bool {
        ||| ((x, y) == p && d == dir_to(p, q))
        ||| ((x, y) == q && d == dir_to(q, p))
    }

    /// Clears the wall on the shared edge of the adjacent pair `{p1, p2}`
    /// from both sides at once; no other wall and no visited marker changes.
    pub fn take_down_wall(&mut self, p1: Point, p2: Point)
        requires
            old(self).wf(),
            old(self).in_bounds(p1@),
            old(self).in_bounds(p2@),
            grid_adjacent(p1@, p2@),
        ensures
            final(self).wf(),
            final(self).same_shape(*old(self)),
            forall|x: int, y: int|
                old(self).in_bounds((x, y)) ==> #[trigger] final(self).visited(x, y) == old(
                    self,
                ).visited(x, y),
            forall|x: int, y: int, d: Dir|
                old(self).in_bounds((x, y)) ==> #[trigger] final(self).wall(x, y, d) == (old(
                    self,
                ).wall(x, y, d) && !Maze::on_shared_edge(p1@, p2@, x, y, d)),
    {
        let d = if p2.x > p1.x {
            Dir::E
        } else if p1.x > p2.x {
            Dir::W
        } else if p2.y > p1.y {
            Dir::S
        } else {
            Dir::N
        };
        proof {
            assert(d == dir_to(p1@, p2@));
            assert(d.opposite_spec() == dir_to(p2@, p1@));
        }
        let o = d.opposite();
        let col1 = &mut self.cells[p1.x];
        let c1 = &mut col1[p1.y];
        c1.remove_wall(d);
        let col2 = &mut self.cells[p2.x];
        let c2 = &mut col2[p2.y];
        c2.remove_wall(o);
        proof {
            assert forall|x: int, y: int, e: Dir|
                old(self).in_bounds((x, y)) implies #[trigger] self.wall(x, y, e) == (old(
                self,
            ).wall(x, y, e) && !Maze::on_shared_edge(p1@, p2@, x, y, e)) by {
                assert(p1@ != p2@);
            }
            assert forall|x: int, y: int|
                old(self).in_bounds((x, y)) implies #[trigger] self.visited(x, y) == old(
                self,
            ).visited(x, y) by {}
        }
    }

    /// The checked form of `take_down_wall`: refuses out-of-bounds points and
    /// points that are not 4-neighbors, and only then mutates.
    pub fn remove_wall_pair(&mut self, p1: Point, p2: Point) -> (r: Result<(), MazeError>)
        requires
            old(self).wf(),
        ensures
            final(self).wf(),
            final(self).same_shape(*old(self)),
            match r {
                Ok(()) => {
                    &&& old(self).in_bounds(p1@)
                    &&& old(self).in_bounds(p2@)
                    &&& grid_adjacent(p1@, p2@)
                    &&& forall|x: int, y: int|
                        old(self).in_bounds((x, y)) ==> #[trigger] final(self).visited(x, y)
                            == old(self).visited(x, y)
                    &&& forall|x: int, y: int, d: Dir|
                        old(self).in_bounds((x, y)) ==> #[trigger] final(self).wall(x, y, d) == (
                        old(self).wall(x, y, d) && !Maze::on_shared_edge(p1@, p2@, x, y, d))
                },
                Err(e) => {
                    &&& *final(self) == *old(self)
                    &&& (e == MazeError::OutOfBounds || e == MazeError::NotAdjacent)
                    &&& (e == MazeError::OutOfBounds <==> (!old(self).in_bounds(p1@) || !old(
                        self,
                    ).in_bounds(p2@)))
                    &&& (e == MazeError::NotAdjacent <==> (old(self).in_bounds(p1@) && old(
                        self,
                    ).in_bounds(p2@) && !grid_adjacent(p1@, p2@)))
                },
            },
    {
        if !(p1.x < self.width && p1.y < self.height && p2.x < self.width && p2.y < self.height) {
            return Err(MazeError::OutOfBounds);
        }
        let adjacent = if p1.x == p2.x {
            (p1.y > p2.y && p1.y - p2.y == 1) || (p2.y > p1.y && p2.y - p1.y == 1)
        } else if p1.y == p2.y {
            (p1.x > p2.x && p1.x - p2.x == 1) || (p2.x > p1.x && p2.x - p1.x == 1)
        } else {
            false
        };
        if !adjacent {
            return Err(MazeError::NotAdjacent);
        }
        self.take_down_wall(p1, p2);
        Ok(())
    }

    /// The open neighbors of `p`: the in-bounds 4-neighbors not separated
    /// from `p` by a wall, in the fixed order east, south, west, north.
    pub open spec fn neighbors_open_spec(self, p: (int, int)) -> Seq<(int, int)> {
        let e: Seq<(int, int)> = if !self.wall(p.0, p.1, Dir::E) && p.0 + 1 < self.width {
            seq![(p.0 + 1, p.1)]
        } else {
            seq![]
        };
        let s: Seq<(int, int)> = if !self.wall(p.0, p.1, Dir::S) && p.1 + 1 < self.height {
            seq![(p.0, p.1 + 1)]
        } else {
            seq![]
        };
        let w: Seq<(int, int)> = if !self.wall(p.0, p.1, Dir::W) && p.0 >= 1 {
            seq![(p.0 - 1, p.1)]
        } else {
            seq![]
        };
        let n: Seq<(int, int)> = if !self.wall(p.0, p.1, Dir::N) && p.1 >= 1 {
            seq![(p.0, p.1 - 1)]
        } else {
            seq![]
        };
        e + s + w + n
    }

    /// Every listed open neighbor really is open-adjacent to `p`.
    pub proof fn lemma_neighbors_open_sound(self, p: (int, int))
        requires
            self.wf(),
            self.in_bounds(p),
        ensures
            forall|i: int|
                0 <= i < self.neighbors_open_spec(p).len() ==> self.open_adj(
                    p,
                    #[trigger] self.neighbors_open_spec(p)[i],
                ),
    {
    }

    /// Every cell open-adjacent to `p` is listed among its open neighbors.
    pub proof fn lemma_neighbors_open_complete(self, p: (int, int), q: (int, int))
        requires
            self.wf(),
            self.open_adj(p, q),
        ensures
            self.neighbors_open_spec(p).contains(q),
    {
        let ns = self.neighbors_open_spec(p);
        if q.0 == p.0 + 1 {
            assert(ns[0] == q);
        } else if q.1 == p.1 + 1 {
            let e: int = if !self.wall(p.0, p.1, Dir::E) && p.0 + 1 < self.width {
                1
            } else {
                0
            };
            assert(ns[e] == q);
        } else if q.0 == p.0 - 1 {
            let e: int = if !self.wall(p.0, p.1, Dir::E) && p.0 + 1 < self.width {
                1
            } else {
                0
            };
            let s: int = if !self.wall(p.0, p.1, Dir::S) && p.1 + 1 < self.height {
                1
            } else {
                0
            };
            assert(ns[e + s] == q);
        } else {
            let e: int = if !self.wall(p.0, p.1, Dir::E) && p.0 + 1 < self.width {
                1
            } else {
                0
            };
            let s: int = if !self.wall(p.0, p.1, Dir::S) && p.1 + 1 < self.height {
                1
            } else {
                0
            };
            let w: int = if !self.wall(p.0, p.1, Dir::W) && p.0 >= 1 {
                1
            } else {
                0
            };
            assert(ns[e + s + w] == q);
        }
    }

    /// Returns the open neighbors of `p` (in-bounds 4-neighbors reachable
    /// through a missing wall), in the fixed order east, south, west, north.
    pub fn neighbors(&self, p: Point) -> (r: Vec<Point>)
        requires
            self.wf(),
            self.in_bounds(p@),
        ensures
            points_of(r@) == self.neighbors_open_spec(p@),
    {
        let Point { x, y } = p;
        let mut n: Vec<Point> = Vec::new();
        let c = &self.cells[x][y];
        if !c.wall_e && x + 1 < self.width {
            n.push(Point::new(x + 1, y));
        }
        if !c.wall_s && y + 1 < self.height {
            n.push(Point::new(x, y + 1));
        }
        if !c.wall_w && x > 0 {
            n.push(Point::new(x - 1, y));
        }
        if !c.wall_n && y > 0 {
            n.push(Point::new(x, y - 1));
        }
        proof {
            assert(points_of(n@) =~= self.neighbors_open_spec(p@));
        }
        n
    }

    /// The in-bounds 4-neighbors of `p` whose visited marker is still clear,
    /// walls notwithstanding, in the fixed order west, east, north, south.
    pub open spec fn neighbors_unvisited_spec(self, p: (int, int)) -> Seq<(int, int)> {
        let w: Seq<(int, int)> = if p.0 >= 1 && !self.visited(p.0 - 1, p.1) {
            seq![(p.0 - 1, p.1)]
        } else {
            seq![]
        };
        let e: Seq<(int, int)> = if p.0 + 1 < self.width && !self.visited(p.0 + 1, p.1) {
            seq![(p.0 + 1, p.1)]
        } else {
            seq![]
        };
        let n: Seq<(int, int)> = if p.1 >= 1 && !self.visited(p.0, p.1 - 1) {
            seq![(p.0, p.1 - 1)]
        } else {
            seq![]
        };
        let s: Seq<(int, int)> = if p.1 + 1 < self.height && !self.visited(p.0, p.1 + 1) {
            seq![(p.0, p.1 + 1)]
        } else {
            seq![]
        };
        w + e + n + s
    }

    /// Every listed unvisited neighbor is in bounds, adjacent to `p`, and
    /// unvisited.
    pub proof fn lemma_neighbors_unvisited_sound(self, p: (int, int))
        requires
            self.wf(),
            self.in_bounds(p),
        ensures
            forall|i: int|
                0 <= i < self.neighbors_unvisited_spec(p).len() ==> {
                    let q = #[trigger] self.neighbors_unvisited_spec(p)[i];
                    self.in_bounds(q) && grid_adjacent(p, q) && !self.visited(q.0, q.1)
                },
    {
    }

    /// When the unvisited-neighbor list of `p` is empty, every in-bounds
    /// 4-neighbor of `p` is visited.
    pub proof fn lemma_neighbors_unvisited_empty(self, p: (int, int), q: (int, int))
        requires
            self.wf(),
            self.in_bounds(p),
            self.neighbors_unvisited_spec(p).len() == 0,
            grid_adjacent(p, q),
            self.in_bounds(q),
        ensures
            self.visited(q.0, q.1),
    {
    }

    /// Returns the in-bounds 4-neighbors of `p` that are not yet visited,
    /// regardless of walls, in the fixed order west, east, north, south.
    pub fn unvisited_neighbor(&self, p: Point) -> (r: Vec<Point>)
        requires
            self.wf(),
            self.in_bounds(p@),
        ensures
            points_of(r@) == self.neighbors_unvisited_spec(p@),
    {
        let mut dir: Vec<Point> = Vec::new();
        if p.x > 0 && !self.cells[p.x - 1][p.y].filled {
            dir.push(Point::new(p.x - 1, p.y));
        }
        if p.x + 1 < self.width && !self.cells[p.x + 1][p.y].filled {
            dir.push(Point::new(p.x + 1, p.y));
        }
        if p.y > 0 && !self.cells[p.x][p.y - 1].filled {
            dir.push(Point::new(p.x, p.y - 1));
        }
        if p.y + 1 < self.height && !self.cells[p.x][p.y + 1].filled {
            dir.push(Point::new(p.x, p.y + 1));
        }
        proof {
            assert(points_of(dir@) =~= self.neighbors_unvisited_spec(p@));
        }
        dir
    }

    /// The visited marker of each cell, as a 0/1 quantity.
    pub open spec fn visited_weight(self) -> spec_fn(int, int) -> nat {
        |x: int, y: int| if self.visited(x, y) { 1nat } else { 0nat }
    }

    /// How many cells carry the visited marker.
    pub open spec fn visited_count(self) -> nat {
        sum_grid(self.visited_weight(), self.width as int, self.height as int)
    }

    /// How many open passages leave the cell at `(x, y)` eastward or
    /// southward. Under wall symmetry, summing this over the grid counts
    /// every open edge exactly once, from its west or north endpoint.
    pub open spec fn open_edge_weight(self) -> spec_fn(int, int) -> nat {
        |x: int, y: int|
            (if x + 1 < self.width && !self.wall(x, y, Dir::E) {
                1nat
            } else {
                0nat
            }) + (if y + 1 < self.height && !self.wall(x, y, Dir::S) {
                1nat
            } else {
                0nat
            })
    }

    /// How many open (wall-free) edges the grid has.
    pub open spec fn open_edge_count(self) -> nat {
        sum_grid(self.open_edge_weight(), self.width as int, self.height as int)
    }
}

} // verus!
