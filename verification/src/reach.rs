//! Reachability through open passages: paths whose consecutive cells are
//! open-adjacent, and the lemmas the carver and the searcher both lean on.

use vstd::prelude::*;

use crate::maze::{grid_adjacent, Maze};

verus! {

/// `s` is a walk through `m`: nonempty, every cell in bounds, and every
/// consecutive pair joined by an open passage.
pub open spec fn path_ok(m: Maze, s: Seq<(int, int)>) -> bool {
    &&& s.len() >= 1
    &&& forall|i: int| 0 <= i < s.len() ==> m.in_bounds(#[trigger] s[i])
    &&& forall|i: int| 0 <= i < s.len() - 1 ==> m.open_adj(#[trigger] s[i], s[i + 1])
}

/// Some walk through `m` leads from `a` to `b`.
pub open spec fn reachable(m: Maze, a: (int, int), b: (int, int)) -> bool {
    exists|s: Seq<(int, int)>| path_ok(m, s) && s.first() == a && s.last() == b
}

/// Every cell is reachable from itself.
pub proof fn lemma_reachable_refl(m: Maze, a: (int, int))
    requires
        m.in_bounds(a),
    ensures
        reachable(m, a, a),
{
    let s: Seq<(int, int)> = seq![a];
    assert(path_ok(m, s) && s.first() == a && s.last() == a);
}

/// Reachability extends along one more open passage.
pub proof fn lemma_reachable_extend(m: Maze, a: (int, int), b: (int, int), c: (int, int))
    requires
        reachable(m, a, b),
        m.open_adj(b, c),
    ensures
        reachable(m, a, c),
{
    let s = choose|s: Seq<(int, int)>| path_ok(m, s) && s.first() == a && s.last() == b;
    let t = s.push(c);
    assert forall|i: int| 0 <= i < t.len() - 1 implies m.open_adj(#[trigger] t[i], t[i + 1]) by {
        if i < s.len() - 1 {
            assert(m.open_adj(s[i], s[i + 1]));
        }
    }
    assert(path_ok(m, t) && t.first() == a && t.last() == c);
}

/// Opening further passages never severs reachability: a maze with the same
/// dimensions and a superset of the open passages reaches at least as much.
pub proof fn lemma_reachable_monotone(m1: Maze, m2: Maze, a: (int, int), b: (int, int))
    requires
        m1.width == m2.width,
        m1.height == m2.height,
        forall|p: (int, int), q: (int, int)| m1.open_adj(p, q) ==> m2.open_adj(p, q),
        reachable(m1, a, b),
    ensures
        reachable(m2, a, b),
{
    let s = choose|s: Seq<(int, int)>| path_ok(m1, s) && s.first() == a && s.last() == b;
    assert forall|i: int| 0 <= i < s.len() - 1 implies m2.open_adj(#[trigger] s[i], s[i + 1]) by {
        assert(m1.open_adj(s[i], s[i + 1]));
    }
    assert(path_ok(m2, s) && s.first() == a && s.last() == b);
}

/// A set of cells that contains the first cell of a walk and is closed under
/// open adjacency contains the last cell of the walk too.
pub proof fn lemma_path_stays_inside(m: Maze, s: Seq<(int, int)>, inside: Set<(int, int)>)
    requires
        path_ok(m, s),
        inside.contains(s.first()),
        forall|p: (int, int), q: (int, int)|
            inside.contains(p) && m.open_adj(p, q) ==> inside.contains(q),
    ensures
        inside.contains(s.last()),
    decreases s.len(),
{
    if s.len() > 1 {
        let t = s.drop_last();
        assert forall|i: int| 0 <= i < t.len() - 1 implies m.open_adj(#[trigger] t[i], t[i + 1]) by {
            assert(m.open_adj(s[i], s[i + 1]));
        }
        assert forall|i: int| 0 <= i < t.len() implies m.in_bounds(#[trigger] t[i]) by {
            assert(m.in_bounds(s[i]));
        }
        lemma_path_stays_inside(m, t, inside);
        assert(m.open_adj(s[s.len() - 2], s[s.len() - 1]));
    }
}

/// When every visited cell has only visited 4-neighbors and the visited cell
/// `(sx, sy)` exists, the whole grid is visited: walking from `(sx, sy)`
/// first along the x axis and then along the y axis reaches any `(x, y)`
/// through in-bounds neighbor steps.
pub proof fn lemma_all_visited(m: Maze, sx: int, sy: int, x: int, y: int)
    requires
        m.wf(),
        m.in_bounds((sx, sy)),
        m.in_bounds((x, y)),
        m.visited(sx, sy),
        forall|p: (int, int), q: (int, int)|
            m.in_bounds(p) && m.in_bounds(q) && m.visited(p.0, p.1) && grid_adjacent(p, q)
                ==> m.visited(q.0, q.1),
    ensures
        m.visited(x, y),
    decreases
            (if x >= sx {
                x - sx
            } else {
                sx - x
            }) + (if y >= sy {
                y - sy
            } else {
                sy - y
            }),
{
    if x == sx && y == sy {
    } else if x > sx {
        lemma_all_visited(m, sx, sy, x - 1, y);
        assert(grid_adjacent((x - 1, y), (x, y)));
    } else if x < sx {
        lemma_all_visited(m, sx, sy, x + 1, y);
        assert(grid_adjacent((x + 1, y), (x, y)));
    } else if y > sy {
        lemma_all_visited(m, sx, sy, x, y - 1);
        assert(grid_adjacent((x, y - 1), (x, y)));
    } else {
        lemma_all_visited(m, sx, sy, x, y + 1);
        assert(grid_adjacent((x, y + 1), (x, y)));
    }
}

} // verus!
