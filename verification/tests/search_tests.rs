use rmaze::carve::Picker;
use rmaze::maze::{Dir, Maze, Point};

fn walled_maze(w: usize, h: usize) -> Maze {
    Maze::new(w, h, false).expect("positive dimensions")
}

#[test]
fn manhattan_exact_values() {
    assert_eq!(Maze::manhattan(Point::new(0, 0), Point::new(3, 4)), 7);
    assert_eq!(Maze::manhattan(Point::new(3, 4), Point::new(0, 0)), 7);
    assert_eq!(Maze::manhattan(Point::new(5, 5), Point::new(5, 5)), 0);
    assert_eq!(Maze::manhattan(Point::new(2, 9), Point::new(4, 1)), 10);
}

/// The concrete scenario: a carved 3-by-1 grid, searched from end to end,
/// gives the full corridor as the path — length two in steps.
#[test]
fn three_by_one_corridor_shortest_path() {
    let mut m = walled_maze(3, 1);
    let mut picker = Picker::scripted(vec![0, 0, 0]);
    m.carve(Point::new(0, 0), &mut picker);
    let path = m.a_star(Point::new(0, 0), Point::new(2, 0)).expect("corridor is connected");
    assert_eq!(path, vec![Point::new(0, 0), Point::new(1, 0), Point::new(2, 0)]);
    assert_eq!(path.len() - 1, 2);
}

/// A* optimality on corridors of known shortest-path length: a carved
/// 1-by-n corridor admits exactly one path, of length n - 1 steps.
#[test]
fn corridor_paths_have_known_length() {
    for n in [1usize, 2, 5, 9] {
        let mut m = walled_maze(1, n);
        let mut picker = Picker::scripted(vec![0; n]);
        m.carve(Point::new(0, 0), &mut picker);
        let path = m.a_star(Point::new(0, 0), Point::new(0, n - 1)).expect("corridor");
        assert_eq!(path.len(), n);
        assert_eq!(path[0], Point::new(0, 0));
        assert_eq!(path[n - 1], Point::new(0, n - 1));
    }
}

/// A* optimality on a hand-built maze: an open 3-by-3 room where the direct
/// route has length 4, against a longer detour that also exists.
#[test]
fn hand_built_room_shortest_path_length() {
    let mut m = walled_maze(3, 3);
    // Open every horizontal and vertical passage: a fully open room.
    for x in 0..3 {
        for y in 0..3 {
            if x + 1 < 3 {
                m.remove_wall_pair(Point::new(x, y), Point::new(x + 1, y)).unwrap();
            }
            if y + 1 < 3 {
                m.remove_wall_pair(Point::new(x, y), Point::new(x, y + 1)).unwrap();
            }
        }
    }
    let path = m.a_star(Point::new(0, 0), Point::new(2, 2)).expect("open room");
    assert_eq!(path.len() - 1, 4);
}

/// Soundness: along any returned path, consecutive points are
/// grid-adjacent and separated by no wall.
#[test]
fn returned_path_is_wall_free_and_adjacent() {
    let mut m = walled_maze(7, 6);
    let mut picker = Picker::scripted(vec![
        5, 3, 1, 4, 1, 5, 9, 2, 6, 5, 3, 5, 8, 9, 7, 9, 3, 2, 3, 8, 4, 6, 2, 6, 4, 3, 3,
    ]);
    m.carve(Point::new(0, 0), &mut picker);
    let path = m.a_star(Point::new(0, 0), Point::new(6, 5)).expect("carved maze is connected");
    assert_eq!(path[0], Point::new(0, 0));
    assert_eq!(*path.last().unwrap(), Point::new(6, 5));
    for pair in path.windows(2) {
        let (p, q) = (pair[0], pair[1]);
        let dx = p.x.abs_diff(q.x);
        let dy = p.y.abs_diff(q.y);
        assert_eq!(dx + dy, 1, "consecutive points must be 4-neighbors");
        assert!(m.neighbors(p).contains(&q), "no wall may separate them");
    }
}

/// An unreachable goal is an answer, not an error: with no wall ever
/// removed, two distinct cells are in disjoint regions.
#[test]
fn unreachable_goal_returns_none() {
    let m = walled_maze(4, 4);
    assert_eq!(m.a_star(Point::new(0, 0), Point::new(3, 3)), None);
    assert_eq!(m.a_star(Point::new(1, 2), Point::new(1, 3)), None);
}

/// Searching for the cell one stands on succeeds even in a walled grid.
#[test]
fn start_equals_goal() {
    let m = walled_maze(2, 2);
    let path = m.a_star(Point::new(1, 1), Point::new(1, 1)).expect("trivial path");
    assert_eq!(path, vec![Point::new(1, 1)]);
}

/// A partially carved grid: the search must thread the one opening.
#[test]
fn search_threads_the_only_opening() {
    let mut m = walled_maze(2, 2);
    m.remove_wall_pair(Point::new(0, 0), Point::new(0, 1)).unwrap();
    m.remove_wall_pair(Point::new(0, 1), Point::new(1, 1)).unwrap();
    let path = m.a_star(Point::new(0, 0), Point::new(1, 1)).expect("connected through two walls");
    assert_eq!(path, vec![Point::new(0, 0), Point::new(0, 1), Point::new(1, 1)]);
    // The direct diagonal neighbor is still sealed off.
    assert_eq!(m.has_wall(Point::new(0, 0), Dir::E), Ok(true));
}
