use rmaze::carve::Picker;
use rmaze::maze::{Dir, Maze, MazeError, Point};

fn walled_maze(w: usize, h: usize) -> Maze {
    Maze::new(w, h, false).expect("positive dimensions")
}

/// Counts the open (wall-free) edges of the grid, each edge once, from its
/// west or north endpoint.
fn open_edges(m: &Maze) -> usize {
    let mut n = 0;
    for x in 0..m.width {
        for y in 0..m.height {
            let p = Point::new(x, y);
            if x + 1 < m.width && !m.has_wall(p, Dir::E).unwrap() {
                n += 1;
            }
            if y + 1 < m.height && !m.has_wall(p, Dir::S).unwrap() {
                n += 1;
            }
        }
    }
    n
}

/// Every cell reachable from (0, 0), by a test-side flood fill over the
/// open passages.
fn all_reachable(m: &Maze) -> bool {
    let mut seen = vec![vec![false; m.height]; m.width];
    let mut stack = vec![Point::new(0, 0)];
    seen[0][0] = true;
    while let Some(p) = stack.pop() {
        for q in m.neighbors(p) {
            if !seen[q.x][q.y] {
                seen[q.x][q.y] = true;
                stack.push(q);
            }
        }
    }
    seen.iter().all(|col| col.iter().all(|&v| v))
}

/// Spanning-tree property: after carving, every cell is reachable from the
/// start and the open edges number `width * height - 1`.
#[test]
fn carve_leaves_spanning_tree() {
    let mut m = walled_maze(6, 4);
    let mut picker = Picker::scripted(vec![
        3, 1, 4, 1, 5, 9, 2, 6, 5, 3, 5, 8, 9, 7, 9, 3, 2, 3, 8, 4, 6, 2, 6, 4, 3, 3, 8, 3, 2, 7,
    ]);
    m.carve(Point::new(0, 0), &mut picker);
    assert_eq!(open_edges(&m), 6 * 4 - 1);
    assert!(all_reachable(&m));
    for x in 0..6 {
        for y in 0..4 {
            assert_eq!(m.is_visited(Point::new(x, y)), Ok(true));
        }
    }
}

/// The randomized entry point carves a spanning tree too; this also
/// exercises the real random source behind the carver.
#[test]
fn generate_leaves_spanning_tree() {
    let mut m = walled_maze(8, 5);
    m.generate(Point::new(3, 2));
    assert_eq!(open_edges(&m), 8 * 5 - 1);
    assert!(all_reachable(&m));
}

/// No cycles, checked as the union-find style edge count: a connected graph
/// on `n` cells with `n - 1` edges has no cycle, and carving several mazes
/// never produces an edge surplus.
#[test]
fn carve_opens_exactly_tree_many_edges() {
    for (w, h) in [(1, 1), (1, 7), (4, 4), (5, 2)] {
        let mut m = walled_maze(w, h);
        let mut picker = Picker::scripted(vec![1, 2, 3, 4, 5, 6, 7, 8, 9, 10, 11, 12, 13]);
        m.carve(Point::new(0, 0), &mut picker);
        assert_eq!(open_edges(&m), w * h - 1);
        assert!(all_reachable(&m));
    }
}

/// Determinism: two carve runs with the same scripted source and the same
/// inputs produce identical wall configurations.
#[test]
fn scripted_carves_are_identical() {
    let script = vec![7, 0, 3, 1, 4, 1, 5, 9, 2, 6, 5, 3, 5, 8, 9, 7, 9, 3, 2, 3, 8, 4];
    let mut m1 = walled_maze(5, 5);
    let mut p1 = Picker::scripted(script.clone());
    m1.carve(Point::new(2, 2), &mut p1);
    let mut m2 = walled_maze(5, 5);
    let mut p2 = Picker::scripted(script);
    m2.carve(Point::new(2, 2), &mut p2);
    assert_eq!(m1, m2);
}

/// The checked generator refuses an out-of-bounds start and reports it,
/// leaving the grid untouched; on an in-bounds start it carves as usual.
#[test]
fn try_generate_checks_the_start() {
    let mut m = walled_maze(3, 2);
    assert_eq!(m.try_generate(Point::new(3, 0)), Err(MazeError::OutOfBounds));
    assert_eq!(m.try_generate(Point::new(0, 2)), Err(MazeError::OutOfBounds));
    // Nothing was carved by the refused calls.
    assert_eq!(open_edges(&m), 0);
    assert_eq!(m.is_visited(Point::new(0, 0)), Ok(false));
    assert_eq!(m.try_generate(Point::new(1, 1)), Ok(()));
    assert_eq!(open_edges(&m), 3 * 2 - 1);
    assert!(all_reachable(&m));
}

/// A scripted picker replays its values reduced modulo the asked bound,
/// and keeps answering zero once the script runs out.
#[test]
fn scripted_picker_replays_values() {
    let mut p = Picker::scripted(vec![7, 3, 10]);
    assert_eq!(p.pick(4), 3);
    assert_eq!(p.pick(2), 1);
    assert_eq!(p.pick(10), 0);
    assert_eq!(p.pick(9), 0);
    assert_eq!(p.pick(1), 0);
}

/// A fully hand-computed run: on a 2-by-2 grid from (0, 0) with an
/// all-zeros script, the carver goes east, south, then west, leaving
/// exactly the wall between (0, 0) and (0, 1).
#[test]
fn two_by_two_scripted_run_exact_walls() {
    let mut m = walled_maze(2, 2);
    let mut picker = Picker::scripted(vec![0, 0, 0, 0]);
    m.carve(Point::new(0, 0), &mut picker);
    assert_eq!(m.has_wall(Point::new(0, 0), Dir::E), Ok(false));
    assert_eq!(m.has_wall(Point::new(1, 0), Dir::S), Ok(false));
    assert_eq!(m.has_wall(Point::new(1, 1), Dir::W), Ok(false));
    assert_eq!(m.has_wall(Point::new(0, 0), Dir::S), Ok(true));
    assert_eq!(m.has_wall(Point::new(0, 1), Dir::N), Ok(true));
    // The one walled-off pair forces the long way round.
    let path = m.a_star(Point::new(0, 0), Point::new(0, 1)).expect("spanning tree");
    assert_eq!(
        path,
        vec![Point::new(0, 0), Point::new(1, 0), Point::new(1, 1), Point::new(0, 1)]
    );
}

/// One carve step with a scripted choice is reproducible by hand: on a
/// fresh 2-by-1 grid the only unvisited neighbor of (0, 0) is (1, 0), so
/// the step opens that wall, marks the cell and pushes it.
#[test]
fn carve_step_follows_the_choice() {
    let mut m = walled_maze(2, 1);
    m.mark_visited(Point::new(0, 0)).unwrap();
    let mut stack = vec![Point::new(0, 0)];
    m.carve_step(&mut stack, 5);
    assert_eq!(stack, vec![Point::new(0, 0), Point::new(1, 0)]);
    assert_eq!(m.has_wall(Point::new(0, 0), Dir::E), Ok(false));
    assert_eq!(m.is_visited(Point::new(1, 0)), Ok(true));
    // A dead end backtracks: (1, 0) has no unvisited neighbor left.
    m.carve_step(&mut stack, 0);
    assert_eq!(stack, vec![Point::new(0, 0)]);
}

/// The concrete three-cell corridor: carving a 3-by-1 grid from (0, 0)
/// opens the edges (0,0)-(1,0) and (1,0)-(2,0).
#[test]
fn three_by_one_corridor_carves_fully() {
    let mut m = walled_maze(3, 1);
    let mut picker = Picker::scripted(vec![0, 0, 0, 0]);
    m.carve(Point::new(0, 0), &mut picker);
    assert_eq!(m.has_wall(Point::new(0, 0), Dir::E), Ok(false));
    assert_eq!(m.has_wall(Point::new(1, 0), Dir::W), Ok(false));
    assert_eq!(m.has_wall(Point::new(1, 0), Dir::E), Ok(false));
    assert_eq!(m.has_wall(Point::new(2, 0), Dir::W), Ok(false));
    assert_eq!(open_edges(&m), 2);
}

/// A one-cell maze carves to itself: nothing to open, nothing unreachable.
#[test]
fn one_cell_maze() {
    let mut m = walled_maze(1, 1);
    let mut picker = Picker::scripted(vec![]);
    m.carve(Point::new(0, 0), &mut picker);
    assert_eq!(open_edges(&m), 0);
    assert_eq!(m.is_visited(Point::new(0, 0)), Ok(true));
}

/// An exhausted script keeps choosing the first candidate, so the carve
/// still terminates and still spans the grid.
#[test]
fn empty_script_still_spans() {
    let mut m = walled_maze(4, 4);
    let mut picker = Picker::scripted(vec![]);
    m.carve(Point::new(1, 1), &mut picker);
    assert_eq!(open_edges(&m), 15);
    assert!(all_reachable(&m));
}
