use rmaze::maze::{Dir, Maze, MazeError, Point};

fn walled_maze(w: usize, h: usize) -> Maze {
    Maze::new(w, h, false).expect("positive dimensions")
}

#[test]
fn dir_opposite_pairs() {
    assert_eq!(Dir::N.opposite(), Dir::S);
    assert_eq!(Dir::S.opposite(), Dir::N);
    assert_eq!(Dir::E.opposite(), Dir::W);
    assert_eq!(Dir::W.opposite(), Dir::E);
}

#[test]
fn point_new_holds_coordinates() {
    let p = Point::new(3, 7);
    assert_eq!(p.x, 3);
    assert_eq!(p.y, 7);
    assert_eq!(p, Point::new(3, 7));
}

#[test]
fn new_maze_is_fully_walled_and_unvisited() {
    let m = walled_maze(4, 3);
    assert_eq!(m.width, 4);
    assert_eq!(m.height, 3);
    for x in 0..4 {
        for y in 0..3 {
            let p = Point::new(x, y);
            for d in [Dir::N, Dir::S, Dir::E, Dir::W] {
                assert_eq!(m.has_wall(p, d), Ok(true));
            }
            assert_eq!(m.is_visited(p), Ok(false));
        }
    }
}

#[test]
fn new_rejects_zero_dimensions() {
    assert_eq!(Maze::new(0, 5, false).unwrap_err(), MazeError::InvalidDimension);
    assert_eq!(Maze::new(5, 0, true).unwrap_err(), MazeError::InvalidDimension);
    assert_eq!(Maze::new(0, 0, false).unwrap_err(), MazeError::InvalidDimension);
}

#[test]
fn has_wall_out_of_bounds() {
    let m = walled_maze(2, 2);
    assert_eq!(m.has_wall(Point::new(2, 0), Dir::N), Err(MazeError::OutOfBounds));
    assert_eq!(m.has_wall(Point::new(0, 2), Dir::E), Err(MazeError::OutOfBounds));
}

#[test]
fn is_visited_out_of_bounds() {
    let m = walled_maze(2, 2);
    assert_eq!(m.is_visited(Point::new(9, 0)), Err(MazeError::OutOfBounds));
}

#[test]
fn mark_visited_sets_flag() {
    let mut m = walled_maze(2, 2);
    assert_eq!(m.mark_visited(Point::new(1, 1)), Ok(()));
    assert_eq!(m.is_visited(Point::new(1, 1)), Ok(true));
    assert_eq!(m.is_visited(Point::new(0, 0)), Ok(false));
    assert_eq!(m.mark_visited(Point::new(2, 0)), Err(MazeError::OutOfBounds));
}

#[test]
fn cell_remove_wall_clears_only_that_flag() {
    let mut c = rmaze::maze::Cell::new();
    assert!(c.wall_n && c.wall_s && c.wall_e && c.wall_w);
    c.remove_wall(Dir::E);
    assert!(c.wall_n && c.wall_s && !c.wall_e && c.wall_w);
    c.remove_wall(Dir::N);
    assert!(!c.wall_n && c.wall_s && !c.wall_e && c.wall_w);
    assert!(!c.filled);
}

#[test]
fn remove_wall_pair_opens_both_sides() {
    let mut m = walled_maze(3, 3);
    let a = Point::new(1, 1);
    let b = Point::new(2, 1);
    assert_eq!(m.remove_wall_pair(a, b), Ok(()));
    assert_eq!(m.has_wall(a, Dir::E), Ok(false));
    assert_eq!(m.has_wall(b, Dir::W), Ok(false));
    // The other walls of both cells are untouched.
    assert_eq!(m.has_wall(a, Dir::N), Ok(true));
    assert_eq!(m.has_wall(a, Dir::S), Ok(true));
    assert_eq!(m.has_wall(a, Dir::W), Ok(true));
    assert_eq!(m.has_wall(b, Dir::E), Ok(true));
}

#[test]
fn remove_wall_pair_rejects_non_neighbors() {
    let mut m = walled_maze(3, 3);
    assert_eq!(
        m.remove_wall_pair(Point::new(0, 0), Point::new(2, 0)),
        Err(MazeError::NotAdjacent)
    );
    assert_eq!(
        m.remove_wall_pair(Point::new(0, 0), Point::new(1, 1)),
        Err(MazeError::NotAdjacent)
    );
    assert_eq!(
        m.remove_wall_pair(Point::new(0, 0), Point::new(0, 0)),
        Err(MazeError::NotAdjacent)
    );
}

#[test]
fn remove_wall_pair_rejects_out_of_bounds() {
    let mut m = walled_maze(2, 2);
    assert_eq!(
        m.remove_wall_pair(Point::new(1, 1), Point::new(2, 1)),
        Err(MazeError::OutOfBounds)
    );
}

#[test]
fn neighbors_of_walled_cell_is_empty() {
    let m = walled_maze(3, 3);
    assert!(m.neighbors(Point::new(1, 1)).is_empty());
}

#[test]
fn neighbors_order_is_east_south_west_north() {
    let mut m = walled_maze(3, 3);
    let c = Point::new(1, 1);
    m.remove_wall_pair(c, Point::new(2, 1)).unwrap();
    m.remove_wall_pair(c, Point::new(1, 2)).unwrap();
    m.remove_wall_pair(c, Point::new(0, 1)).unwrap();
    m.remove_wall_pair(c, Point::new(1, 0)).unwrap();
    assert_eq!(
        m.neighbors(c),
        vec![Point::new(2, 1), Point::new(1, 2), Point::new(0, 1), Point::new(1, 0)]
    );
}

#[test]
fn neighbors_respects_grid_border() {
    let mut m = walled_maze(2, 2);
    m.remove_wall_pair(Point::new(0, 0), Point::new(1, 0)).unwrap();
    // Only the opened passage shows up; the border is never crossed.
    assert_eq!(m.neighbors(Point::new(0, 0)), vec![Point::new(1, 0)]);
    assert_eq!(m.neighbors(Point::new(1, 0)), vec![Point::new(0, 0)]);
}

#[test]
fn unvisited_neighbor_lists_unvisited_regardless_of_walls() {
    let mut m = walled_maze(3, 3);
    let c = Point::new(1, 1);
    assert_eq!(
        m.unvisited_neighbor(c),
        vec![Point::new(0, 1), Point::new(2, 1), Point::new(1, 0), Point::new(1, 2)]
    );
    m.mark_visited(Point::new(2, 1)).unwrap();
    assert_eq!(
        m.unvisited_neighbor(c),
        vec![Point::new(0, 1), Point::new(1, 0), Point::new(1, 2)]
    );
}

/// All walls that two adjacent cells share read the same from both sides,
/// before, during and after carving.
#[test]
fn wall_symmetry_holds_through_carving() {
    let mut m = walled_maze(5, 4);
    check_symmetry(&m);
    let mut picker = rmaze::carve::Picker::scripted(vec![2, 0, 1, 3, 1, 0, 2, 1, 0, 0, 1, 2]);
    m.carve(Point::new(0, 0), &mut picker);
    check_symmetry(&m);
}

fn check_symmetry(m: &Maze) {
    for x in 0..m.width {
        for y in 0..m.height {
            let p = Point::new(x, y);
            if x + 1 < m.width {
                let q = Point::new(x + 1, y);
                assert_eq!(m.has_wall(p, Dir::E), m.has_wall(q, Dir::W));
            }
            if y + 1 < m.height {
                let q = Point::new(x, y + 1);
                assert_eq!(m.has_wall(p, Dir::S), m.has_wall(q, Dir::N));
            }
        }
    }
}
