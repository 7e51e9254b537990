//! The path finder: A* search over the open-passage graph of a maze, with
//! the Manhattan distance as heuristic and uniform edge cost.
//!
//! The proved contract covers soundness, completeness and optimality: a
//! returned path really leads from start to goal through open passages
//! without revisiting a cell, `None` comes back exactly when no such path
//! exists, and no walk between the two endpoints is shorter than the
//! returned path. Optimality rests on the Manhattan estimate being
//! consistent, on closed cells never undercutting the open frontier's
//! estimates, and on each passage out of a closed cell having been relaxed
//! to within one step.

use vstd::prelude::*;

use crate::counting::{lemma_sum_grid_diff, lemma_sum_grid_le_one, lemma_sum_grid_zero, sum_grid};
use crate::maze::{Maze, Point};
use crate::reach::{lemma_path_stays_inside, path_ok, reachable};

verus! {

/// The Manhattan distance between two coordinate pairs.
pub open spec fn manhattan_spec(a: (int, int), b: (int, int)) -> int {
    (if b.0 >= a.0 {
        b.0 - a.0
    } else {
        a.0 - b.0
    }) + (if b.1 >= a.1 {
        b.1 - a.1
    } else {
        a.1 - b.1
    })
}

/// Whether the coordinate pair `p` occurs in the vector of points.
pub open spec fn contains_point(s: Seq<Point>, p: (int, int)) -> bool {
    exists|i: int| 0 <= i < s.len() && (#[trigger] s[i])@ == p
}

/// The bookkeeping grids are `w` columns of `h` entries.
spec fn grid_shape<T>(g: Seq<Vec<T>>, w: int, h: int) -> bool {
    &&& g.len() == w
    &&& forall|x: int| 0 <= x < w ==> (#[trigger] g[x])@.len() == h
}

/// The closed marker of cell `p`.
spec fn closed_at(c: Seq<Vec<bool>>, p: (int, int)) -> bool {
    c[p.0]@[p.1]
}

/// The best known cost from the start to cell `p`, if `p` has been scored.
spec fn score_at(g: Seq<Vec<Option<usize>>>, p: (int, int)) -> Option<usize> {
    g[p.0]@[p.1]
}

/// The recorded predecessor of cell `p`, if any.
spec fn parent_at(f: Seq<Vec<Option<Point>>>, p: (int, int)) -> Option<Point> {
    f[p.0]@[p.1]
}

/// The closed marker of each cell as a 0/1 quantity, for counting.
spec fn closed_weight(c: Seq<Vec<bool>>) -> spec_fn(int, int) -> nat {
    |x: int, y: int|
        if c[x]@[y] {
            1nat
        } else {
            0nat
        }
}

/// The open set holds distinct, in-bounds, scored, not-yet-closed cells.
spec fn open_ok(m: Maze, open: Seq<Point>, closed: Seq<Vec<bool>>, gs: Seq<Vec<Option<usize>>>) -> bool {
    &&& forall|i: int|
        0 <= i < open.len() ==> {
            let p = (#[trigger] open[i])@;
            m.in_bounds(p) && score_at(gs, p) is Some && !closed_at(closed, p)
        }
    &&& forall|i: int, j: int| 0 <= i < j < open.len() ==> open[i] != open[j]
}

/// Every closed cell has been scored.
spec fn closed_scored(
    m: Maze,
    closed: Seq<Vec<bool>>,
    gs: Seq<Vec<Option<usize>>>,
) -> bool {
    forall|p: (int, int)|
        m.in_bounds(p) && #[trigger] closed_at(closed, p) ==> score_at(gs, p) is Some
}

/// The predecessor records form chains that walk back along open passages,
/// each cell costing exactly one more than its predecessor, bottoming out
/// exactly at the start.
spec fn chain_ok(
    m: Maze,
    start: (int, int),
    gs: Seq<Vec<Option<usize>>>,
    par: Seq<Vec<Option<Point>>>,
) -> bool {
    &&& score_at(gs, start) == Some(0usize)
    &&& forall|p: (int, int)|
        m.in_bounds(p) && (#[trigger] parent_at(par, p)) is Some ==> {
            let q = parent_at(par, p)->0;
            &&& m.in_bounds(q@)
            &&& score_at(gs, p) is Some
            &&& score_at(gs, q@) is Some
            &&& score_at(gs, p)->0 == score_at(gs, q@)->0 + 1
            &&& m.open_adj(q@, p)
        }
    &&& forall|p: (int, int)|
        m.in_bounds(p) && (#[trigger] score_at(gs, p)) is Some && parent_at(par, p) is None
            ==> p == start
}

/// Every recorded predecessor is a closed cell. A closed cell's score is
/// final, so the exact cost step in `chain_ok` survives later relaxations.
spec fn parents_closed(
    m: Maze,
    par: Seq<Vec<Option<Point>>>,
    closed: Seq<Vec<bool>>,
) -> bool {
    forall|p: (int, int)|
        m.in_bounds(p) && (#[trigger] parent_at(par, p)) is Some ==> closed_at(
            closed,
            parent_at(par, p)->0@,
        )
}

/// The estimated total cost of a scored cell: cost so far plus the
/// Manhattan estimate to `finish`.
spec fn fval(gs: Seq<Vec<Option<usize>>>, p: (int, int), finish: (int, int)) -> int {
    score_at(gs, p)->0 + manhattan_spec(p, finish)
}

/// Closed cells were expanded in order of estimated total cost: no cell
/// still waiting in the open set undercuts a closed cell's estimate.
spec fn f_dominance(
    m: Maze,
    open: Seq<Point>,
    closed: Seq<Vec<bool>>,
    gs: Seq<Vec<Option<usize>>>,
    finish: (int, int),
) -> bool {
    forall|p: (int, int), i: int|
        #![trigger closed_at(closed, p), open[i]]
        m.in_bounds(p) && closed_at(closed, p) && 0 <= i < open.len() ==> fval(gs, p, finish)
            <= fval(gs, open[i]@, finish)
}

/// Every passage out of a closed cell has been relaxed: the cell on the
/// other side is scored, at most one step dearer.
spec fn edge_bound(m: Maze, closed: Seq<Vec<bool>>, gs: Seq<Vec<Option<usize>>>) -> bool {
    forall|p: (int, int), q: (int, int)|
        m.in_bounds(p) && closed_at(closed, p) && m.open_adj(p, q) ==> score_at(gs, q) is Some
            && score_at(gs, q)->0 <= score_at(gs, p)->0 + 1
}

/// Every scored cell sits in the open set or among the closed cells.
spec fn scored_tracked(
    m: Maze,
    open: Seq<Point>,
    closed: Seq<Vec<bool>>,
    gs: Seq<Vec<Option<usize>>>,
) -> bool {
    forall|p: (int, int)|
        m.in_bounds(p) && (#[trigger] score_at(gs, p)) is Some ==> closed_at(closed, p)
            || contains_point(open, p)
}

/// The Manhattan estimate is consistent: moving to a 4-neighbor changes it
/// by at most one step.
proof fn lemma_manhattan_consistent(a: (int, int), b: (int, int), goal: (int, int))
    requires
        crate::maze::grid_adjacent(a, b),
    ensures
        manhattan_spec(a, goal) <= manhattan_spec(b, goal) + 1,
{
}

/// The Manhattan estimate never overestimates the remaining steps of a
/// concrete walk: it is admissible along every path.
proof fn lemma_manhattan_admissible(m: Maze, s: Seq<(int, int)>, i: int)
    requires
        crate::reach::path_ok(m, s),
        0 <= i < s.len(),
    ensures
        manhattan_spec(s[i], s.last()) <= s.len() - 1 - i,
    decreases s.len() - i,
{
    if i < s.len() - 1 {
        lemma_manhattan_admissible(m, s, i + 1);
        assert(m.open_adj(s[i], s[i + 1]));
        lemma_manhattan_consistent(s[i], s[i + 1], s.last());
    }
}

/// Every score is bounded by the number of closed cells, which bounds the
/// cost arithmetic.
spec fn scores_bounded(m: Maze, gs: Seq<Vec<Option<usize>>>, cnt: nat) -> bool {
    forall|p: (int, int)|
        m.in_bounds(p) && (#[trigger] score_at(gs, p)) is Some ==> score_at(gs, p)->0 <= cnt
}

/// Expansion is complete so far: each open passage out of a closed cell
/// leads to a cell that is closed or waiting in the open set.
spec fn closure_ok(m: Maze, open: Seq<Point>, closed: Seq<Vec<bool>>) -> bool {
    forall|p: (int, int), q: (int, int)|
        m.in_bounds(p) && closed_at(closed, p) && m.open_adj(p, q) ==> closed_at(closed, q)
            || contains_point(open, q)
}

/// A `w` by `h` grid of copies of one value.
fn filled_grid<T: Copy>(width: usize, height: usize, v: T) -> (g: Vec<Vec<T>>)
    ensures
        grid_shape(g@, width as int, height as int),
        forall|x: int, y: int|
            0 <= x < width && 0 <= y < height ==> #[trigger] (g@[x]@[y]) == v,
{
    let mut g: Vec<Vec<T>> = Vec::new();
    let mut x: usize = 0;
    while x < width
        invariant
            x <= width,
            g@.len() == x,
            forall|i: int| 0 <= i < x ==> (#[trigger] g@[i])@.len() == height,
            forall|i: int, j: int| 0 <= i < x && 0 <= j < height ==> #[trigger] (g@[i]@[j]) == v,
        decreases width - x,
    {
        let mut col: Vec<T> = Vec::new();
        let mut y: usize = 0;
        while y < height
            invariant
                y <= height,
                col@.len() == y,
                forall|j: int| 0 <= j < y ==> #[trigger] col@[j] == v,
            decreases height - y,
        {
            col.push(v);
            y = y + 1;
        }
        g.push(col);
        x = x + 1;
    }
    g
}

/// Whether `p` occurs in `v`, by linear scan.
fn contains_pt(v: &Vec<Point>, p: Point) -> (r: bool)
    ensures
        r == contains_point(v@, p@),
{
    let mut i: usize = 0;
    while i < v.len()
        invariant
            i <= v@.len(),
            forall|j: int| 0 <= j < i ==> (#[trigger] v@[j])@ != p@,
        decreases v@.len() - i,
    {
        if v[i].x == p.x && v[i].y == p.y {
            return true;
        }
        i = i + 1;
    }
    false
}

/// Removing one element keeps every other occurring point in the vector.
proof fn lemma_remove_keeps(s_old: Seq<Point>, s_new: Seq<Point>, k: int, p: (int, int))
    requires
        0 <= k < s_old.len(),
        s_new == s_old.remove(k),
        contains_point(s_old, p),
        s_old[k]@ != p,
    ensures
        contains_point(s_new, p),
{
    let i = choose|i: int| 0 <= i < s_old.len() && (#[trigger] s_old[i])@ == p;
    if i < k {
        assert(s_new[i] == s_old[i]);
    } else {
        assert(s_new[i - 1] == s_old[i]);
    }
}

/// Recording a better route to `n` — score `tg`, reached from the closed
/// cell `cur` — keeps the predecessor chains exact and rooted at the start.
proof fn lemma_chain_update(
    m: Maze,
    start: (int, int),
    gs_old: Seq<Vec<Option<usize>>>,
    gs_new: Seq<Vec<Option<usize>>>,
    par_old: Seq<Vec<Option<Point>>>,
    par_new: Seq<Vec<Option<Point>>>,
    closed: Seq<Vec<bool>>,
    n: (int, int),
    current: Point,
    tg: usize,
)
    requires
        chain_ok(m, start, gs_old, par_old),
        parents_closed(m, par_old, closed),
        m.in_bounds(start),
        m.in_bounds(n),
        m.in_bounds(current@),
        m.open_adj(current@, n),
        closed_at(closed, current@),
        !closed_at(closed, n),
        score_at(gs_old, current@) is Some,
        tg == score_at(gs_old, current@)->0 + 1,
        score_at(gs_old, n) is Some ==> tg < score_at(gs_old, n)->0,
        forall|p: (int, int)|
            m.in_bounds(p) && p != n ==> #[trigger] score_at(gs_new, p) == score_at(gs_old, p)
                && parent_at(par_new, p) == parent_at(par_old, p),
        score_at(gs_new, n) == Some(tg),
        parent_at(par_new, n) == Some(current),
    ensures
        chain_ok(m, start, gs_new, par_new),
        parents_closed(m, par_new, closed),
{
    assert(n != current@);
    assert(n != start);
    assert(score_at(gs_new, start) == Some(0usize));
    assert forall|p: (int, int)|
        m.in_bounds(p) && (#[trigger] parent_at(par_new, p)) is Some implies {
        let q = parent_at(par_new, p)->0;
        &&& m.in_bounds(q@)
        &&& score_at(gs_new, p) is Some
        &&& score_at(gs_new, q@) is Some
        &&& score_at(gs_new, p)->0 == score_at(gs_new, q@)->0 + 1
        &&& closed_at(closed, q@)
    } by {
        if p == n {
            assert(parent_at(par_new, p)->0 == current);
            assert(score_at(gs_new, current@) == score_at(gs_old, current@));
        } else {
            assert(parent_at(par_new, p) == parent_at(par_old, p));
            let q = parent_at(par_old, p)->0;
            assert(m.in_bounds(q@));
            assert(score_at(gs_new, p) == score_at(gs_old, p));
            assert(closed_at(closed, q@));
            assert(q@ != n);
            assert(score_at(gs_new, q@) == score_at(gs_old, q@));
        }
    }
    assert forall|p: (int, int)|
        m.in_bounds(p) && (#[trigger] parent_at(par_new, p)) is Some implies m.open_adj(
        parent_at(par_new, p)->0@,
        p,
    ) by {
        if p != n {
            assert(parent_at(par_new, p) == parent_at(par_old, p));
        }
    }
    assert forall|p: (int, int)|
        m.in_bounds(p) && (#[trigger] score_at(gs_new, p)) is Some && parent_at(par_new, p)
            is None implies p == start by {
        if p != n {
            assert(score_at(gs_old, p) == score_at(gs_new, p));
            assert(parent_at(par_old, p) == parent_at(par_new, p));
        }
    }
}

/// The first cell of a walk that is not closed, given that its last cell
/// is not: everything before it is closed.
proof fn first_unclosed_from(closed: Seq<Vec<bool>>, s: Seq<(int, int)>, k: int) -> (i: int)
    requires
        0 <= k < s.len(),
        !closed_at(closed, s.last()),
        forall|j: int| 0 <= j < k ==> closed_at(closed, #[trigger] s[j]),
    ensures
        k <= i < s.len(),
        !closed_at(closed, s[i]),
        forall|j: int| 0 <= j < i ==> closed_at(closed, #[trigger] s[j]),
    decreases s.len() - k,
{
    if !closed_at(closed, s[k]) {
        k
    } else {
        assert(k < s.len() - 1);
        first_unclosed_from(closed, s, k + 1)
    }
}

/// Walking within the closed region costs at least the recorded scores:
/// after `i` steps through closed cells, the cell reached is scored at
/// most `i`.
proof fn lemma_prefix_score(
    m: Maze,
    closed: Seq<Vec<bool>>,
    gs: Seq<Vec<Option<usize>>>,
    s: Seq<(int, int)>,
    i: int,
)
    requires
        m.wf(),
        edge_bound(m, closed, gs),
        crate::reach::path_ok(m, s),
        score_at(gs, s.first()) == Some(0usize),
        0 <= i < s.len(),
        forall|j: int| 0 <= j < i ==> closed_at(closed, #[trigger] s[j]),
    ensures
        score_at(gs, s[i]) is Some,
        score_at(gs, s[i])->0 <= i,
    decreases i,
{
    if i > 0 {
        lemma_prefix_score(m, closed, gs, s, i - 1);
        assert(m.open_adj(s[i - 1], s[i]));
        assert(m.in_bounds(s[i - 1]));
        assert(closed_at(closed, s[i - 1]));
    }
}

/// When the goal is drawn from the open set with the least estimated total
/// cost, its recorded score undercuts every walk from the start: the walk
/// leaves the closed region at some open cell, whose score is at most the
/// steps taken so far, and whose estimate the goal's score undercuts.
proof fn lemma_goal_score_optimal(
    m: Maze,
    start: (int, int),
    finish: (int, int),
    open: Seq<Point>,
    closed: Seq<Vec<bool>>,
    gs: Seq<Vec<Option<usize>>>,
    s: Seq<(int, int)>,
)
    requires
        m.wf(),
        m.in_bounds(start),
        m.in_bounds(finish),
        edge_bound(m, closed, gs),
        scored_tracked(m, open, closed, gs),
        score_at(gs, start) == Some(0usize),
        score_at(gs, finish) is Some,
        !closed_at(closed, finish),
        forall|i: int|
            0 <= i < open.len() ==> fval(gs, finish, finish) <= fval(gs, (#[trigger] open[i])@, finish),
        crate::reach::path_ok(m, s),
        s.first() == start,
        s.last() == finish,
    ensures
        s.len() - 1 >= score_at(gs, finish)->0,
{
    let i = first_unclosed_from(closed, s, 0);
    lemma_prefix_score(m, closed, gs, s, i);
    assert(m.in_bounds(s[i]));
    assert(contains_point(open, s[i]));
    let j = choose|j: int| 0 <= j < open.len() && (#[trigger] open[j])@ == s[i];
    assert(fval(gs, finish, finish) <= fval(gs, s[i], finish));
    lemma_manhattan_admissible(m, s, i);
    assert(manhattan_spec(finish, finish) == 0);
}

/// Along a walk whose scores fall strictly step by step, they fall
/// strictly between any two positions.
proof fn lemma_scores_fall(
    gs: Seq<Vec<Option<usize>>>,
    rev: Seq<Point>,
    i: int,
    j: int,
)
    requires
        forall|k: int|
            0 <= k < rev.len() - 1 ==> score_at(gs, (#[trigger] rev[k + 1])@)->0 < score_at(
                gs,
                rev[k]@,
            )->0,
        0 <= i < j < rev.len(),
    ensures
        score_at(gs, rev[j]@)->0 < score_at(gs, rev[i]@)->0,
    decreases j - i,
{
    if j > i + 1 {
        lemma_scores_fall(gs, rev, i, j - 1);
        assert(score_at(gs, rev[(j - 1) + 1]@)->0 < score_at(gs, rev[j - 1]@)->0);
    } else {
        assert(score_at(gs, rev[i + 1]@)->0 < score_at(gs, rev[i]@)->0);
    }
}

/// Closing one open cell raises the closed count by exactly one, and the
/// count never outgrows the grid.
proof fn lemma_close_count(
    m: Maze,
    closed_pre: Seq<Vec<bool>>,
    closed_new: Seq<Vec<bool>>,
    cur: (int, int),
    cnt: int,
)
    requires
        m.dims_ok(),
        m.in_bounds(cur),
        forall|p: (int, int)|
            m.in_bounds(p) && p != cur ==> #[trigger] closed_at(closed_new, p) == closed_at(
                closed_pre,
                p,
            ),
        !closed_at(closed_pre, cur),
        closed_at(closed_new, cur),
        cnt == sum_grid(closed_weight(closed_pre), m.width as int, m.height as int),
    ensures
        sum_grid(closed_weight(closed_new), m.width as int, m.height as int) == cnt + 1,
        cnt + 1 <= m.width * m.height,
{
    let w = m.width as int;
    let h = m.height as int;
    assert forall|x: int, y: int|
        0 <= x < w && 0 <= y < h && !(x == cur.0 && y == cur.1) implies #[trigger] closed_weight(
        closed_pre,
    )(x, y) == closed_weight(closed_new)(x, y) by {
        assert(closed_at(closed_new, (x, y)) == closed_at(closed_pre, (x, y)));
    }
    assert(closed_weight(closed_pre)(cur.0, cur.1) == 0);
    assert(closed_weight(closed_new)(cur.0, cur.1) == 1);
    lemma_sum_grid_diff(
        closed_weight(closed_pre),
        closed_weight(closed_new),
        cur.0,
        cur.1,
        w,
        h,
    );
    assert forall|x: int, y: int|
        0 <= x < w && 0 <= y < h implies #[trigger] closed_weight(closed_new)(x, y) <= 1 by {}
    lemma_sum_grid_le_one(closed_weight(closed_new), w, h);
}

/// After every neighbor of the newly closed cell has been examined, the
/// expansion books close: each passage out of a closed cell leads to a
/// tracked cell, scored within one step of its closed side.
proof fn lemma_expand_closure(
    m: Maze,
    current: Point,
    nbrs: Seq<Point>,
    open: Seq<Point>,
    closed: Seq<Vec<bool>>,
    gs: Seq<Vec<Option<usize>>>,
    gcur: usize,
)
    requires
        m.wf(),
        m.in_bounds(current@),
        crate::maze::points_of(nbrs) == m.neighbors_open_spec(current@),
        closed_at(closed, current@),
        score_at(gs, current@) == Some(gcur),
        forall|p: (int, int), q: (int, int)|
            m.in_bounds(p) && closed_at(closed, p) && p != current@ && m.open_adj(p, q)
                ==> closed_at(closed, q) || contains_point(open, q),
        forall|p: (int, int), q: (int, int)|
            m.in_bounds(p) && closed_at(closed, p) && p != current@ && m.open_adj(p, q)
                ==> score_at(gs, q) is Some && score_at(gs, q)->0 <= score_at(gs, p)->0 + 1,
        forall|i: int|
            0 <= i < nbrs.len() ==> {
                let q = (#[trigger] nbrs[i])@;
                closed_at(closed, q) || contains_point(open, q)
            },
        forall|i: int|
            0 <= i < nbrs.len() ==> score_at(gs, (#[trigger] nbrs[i])@) is Some && score_at(
                gs,
                nbrs[i]@,
            )->0 <= gcur + 1,
    ensures
        closure_ok(m, open, closed),
        edge_bound(m, closed, gs),
{
    assert forall|p: (int, int), q: (int, int)|
        m.in_bounds(p) && closed_at(closed, p) && m.open_adj(p, q) implies (closed_at(closed, q)
        || contains_point(open, q)) && score_at(gs, q) is Some && score_at(gs, q)->0 <= score_at(
        gs,
        p,
    )->0 + 1 by {
        if p == current@ {
            m.lemma_neighbors_open_complete(p, q);
            let i = choose|i: int|
                0 <= i < m.neighbors_open_spec(p).len() && m.neighbors_open_spec(p)[i] == q;
            assert(crate::maze::points_of(nbrs)[i] == nbrs[i]@);
            assert(nbrs[i]@ == q);
        }
    }
}

/// Drawing the cheapest open cell `open_pre[best]` and closing it keeps
/// the search's books: every closed cell still sits at or below every open
/// estimate, every scored cell is still tracked, and the coverage of the
/// other closed cells survives the removal.
proof fn lemma_close_current(
    m: Maze,
    start: (int, int),
    finish: (int, int),
    open_pre: Seq<Point>,
    open_new: Seq<Point>,
    closed_pre: Seq<Vec<bool>>,
    closed_new: Seq<Vec<bool>>,
    gs: Seq<Vec<Option<usize>>>,
    best: int,
    fcur: int,
)
    requires
        m.wf(),
        0 <= best < open_pre.len(),
        open_new == open_pre.remove(best),
        open_ok(m, open_pre, closed_pre, gs),
        closed_scored(m, closed_pre, gs),
        f_dominance(m, open_pre, closed_pre, gs, finish),
        closure_ok(m, open_pre, closed_pre),
        scored_tracked(m, open_pre, closed_pre, gs),
        edge_bound(m, closed_pre, gs),
        forall|jj: int|
            0 <= jj < open_pre.len() ==> fcur <= fval(gs, (#[trigger] open_pre[jj])@, finish),
        fcur == fval(gs, open_pre[best]@, finish),
        forall|p: (int, int)|
            m.in_bounds(p) && p != open_pre[best]@ ==> #[trigger] closed_at(closed_new, p)
                == closed_at(closed_pre, p),
        closed_at(closed_new, open_pre[best]@),
    ensures
        closed_scored(m, closed_new, gs),
        scored_tracked(m, open_new, closed_new, gs),
        open_ok(m, open_new, closed_new, gs),
        forall|p: (int, int)|
            m.in_bounds(p) && #[trigger] closed_at(closed_new, p) ==> fval(gs, p, finish)
                <= fcur,
        f_dominance(m, open_new, closed_new, gs, finish),
        forall|p: (int, int), q: (int, int)|
            m.in_bounds(p) && closed_at(closed_new, p) && p != open_pre[best]@ && m.open_adj(
                p,
                q,
            ) ==> closed_at(closed_new, q) || contains_point(open_new, q),
        forall|p: (int, int), q: (int, int)|
            m.in_bounds(p) && closed_at(closed_new, p) && p != open_pre[best]@ && m.open_adj(
                p,
                q,
            ) ==> score_at(gs, q) is Some && score_at(gs, q)->0 <= score_at(gs, p)->0 + 1,
{
    let cur = open_pre[best]@;
    assert(score_at(gs, cur) is Some);
    assert forall|p: (int, int)|
        m.in_bounds(p) && #[trigger] closed_at(closed_new, p) implies score_at(gs, p)
        is Some by {
        if p != cur {
            assert(closed_at(closed_pre, p));
        }
    }
    assert forall|p: (int, int)|
        m.in_bounds(p) && (#[trigger] score_at(gs, p)) is Some implies closed_at(closed_new, p)
        || contains_point(open_new, p) by {
        if p != cur && !closed_at(closed_pre, p) {
            assert(contains_point(open_pre, p));
            lemma_remove_keeps(open_pre, open_new, best, p);
        }
    }
    assert forall|i: int| 0 <= i < open_new.len() implies {
        let p = (#[trigger] open_new[i])@;
        m.in_bounds(p) && score_at(gs, p) is Some && !closed_at(closed_new, p)
    } by {
        if i < best {
            assert(open_new[i] == open_pre[i]);
        } else {
            assert(open_new[i] == open_pre[i + 1]);
        }
        assert(open_new[i] != open_pre[best]);
        assert(open_new[i]@ != cur);
    }
    assert forall|i: int, j: int| 0 <= i < j < open_new.len() implies open_new[i]
        != open_new[j] by {
        if j < best {
        } else if i < best {
            assert(open_new[i] == open_pre[i] && open_new[j] == open_pre[j + 1]);
        } else {
            assert(open_new[i] == open_pre[i + 1] && open_new[j] == open_pre[j + 1]);
        }
    }
    assert forall|p: (int, int)|
        m.in_bounds(p) && #[trigger] closed_at(closed_new, p) implies fval(gs, p, finish)
        <= fcur by {
        if p != cur {
            assert(closed_at(closed_pre, p));
            assert(fval(gs, p, finish) <= fval(gs, open_pre[best]@, finish));
        }
    }
    assert forall|p: (int, int), i: int|
        #![trigger closed_at(closed_new, p), open_new[i]]
        m.in_bounds(p) && closed_at(closed_new, p) && 0 <= i < open_new.len() implies fval(
        gs,
        p,
        finish,
    ) <= fval(gs, open_new[i]@, finish) by {
        assert(fval(gs, p, finish) <= fcur);
        if i < best {
            assert(open_new[i] == open_pre[i]);
        } else {
            assert(open_new[i] == open_pre[i + 1]);
        }
    }
    assert forall|p: (int, int), q: (int, int)|
        m.in_bounds(p) && closed_at(closed_new, p) && p != cur && m.open_adj(
            p,
            q,
        ) implies closed_at(closed_new, q) || contains_point(open_new, q) by {
        assert(closed_at(closed_pre, p));
        if !closed_at(closed_pre, q) {
            assert(contains_point(open_pre, q));
            if q != cur {
                lemma_remove_keeps(open_pre, open_new, best, q);
            }
        }
    }
}

impl Maze {
    /// The Manhattan distance between `pa` and `pb`: the heuristic of the
    /// path finder, admissible on a 4-connected grid with unit step cost.
    pub fn manhattan(pa: Point, pb: Point) -> (r: usize)
        requires
            manhattan_spec(pa@, pb@) <= usize::MAX,
        ensures
            r == manhattan_spec(pa@, pb@),
    {
        let dx = if pb.x >= pa.x {
            pb.x - pa.x
        } else {
            pa.x - pb.x
        };
        let dy = if pb.y >= pa.y {
            pb.y - pa.y
        } else {
            pa.y - pb.y
        };
        dx + dy
    }

    /// The estimated total cost through a cell with known cost `g`: the cost
    /// so far plus the Manhattan estimate to `finish`, in arithmetic wide
    /// enough never to overflow.
    fn fscore(g: usize, p: Point, finish: Point) -> (r: u128)
        ensures
            r == g + manhattan_spec(p@, finish@),
    {
        let dx = if finish.x >= p.x {
            finish.x - p.x
        } else {
            p.x - finish.x
        };
        let dy = if finish.y >= p.y {
            finish.y - p.y
        } else {
            p.y - finish.y
        };
        g as u128 + dx as u128 + dy as u128
    }

    /// Finds a shortest path from `start` to `finish` through open
    /// passages, or reports that none exists. A returned path starts at
    /// `start`, ends at `finish`, visits no cell twice, and each
    /// consecutive pair of its points is joined by an open passage; no walk
    /// between the two endpoints through open passages is shorter. `None`
    /// comes back if and only if `finish` is not reachable from `start` —
    /// an unreachable goal is an answer, not an error.
    #[verifier::rlimit(100)]
    pub fn a_star(&self, start: Point, finish: Point) -> (r: Option<Vec<Point>>)
        requires
            self.wf(),
            self.in_bounds(start@),
            self.in_bounds(finish@),
        ensures
            match r {
                Some(path) => {
                    &&& path@.len() >= 1
                    &&& path@[0] == start
                    &&& path@.last() == finish
                    &&& forall|i: int|
                        0 <= i < path@.len() ==> self.in_bounds((#[trigger] path@[i])@)
                    &&& forall|i: int|
                        0 <= i < path@.len() - 1 ==> self.open_adj(
                            (#[trigger] path@[i])@,
                            path@[i + 1]@,
                        )
                    &&& forall|i: int, j: int| 0 <= i < j < path@.len() ==> path@[i] != path@[j]
                    &&& forall|s: Seq<(int, int)>|
                        path_ok(*self, s) && s.first() == start@ && s.last() == finish@
                            ==> s.len() >= path@.len()
                    &&& reachable(*self, start@, finish@)
                },
                None => !reachable(*self, start@, finish@),
            },
    {
        let w = self.width;
        let h = self.height;
        let mut closed: Vec<Vec<bool>> = filled_grid(w, h, false);
        let mut gs: Vec<Vec<Option<usize>>> = filled_grid(w, h, None);
        let mut par: Vec<Vec<Option<Point>>> = filled_grid(w, h, None);
        let mut open: Vec<Point> = Vec::new();
        let mut cnt: usize = 0;
        open.push(start);
        {
            let col = &mut gs[start.x];
            col[start.y] = Some(0);
        }
        proof {
            assert forall|x: int, y: int| 0 <= x < w && 0 <= y < h implies #[trigger] closed_weight(
                closed@,
            )(x, y) == 0 by {}
            lemma_sum_grid_zero(closed_weight(closed@), w as int, h as int);
            assert(open@[0] == start);
            assert(contains_point(open@, start@));
            assert forall|p: (int, int)|
                self.in_bounds(p) && (#[trigger] score_at(gs@, p)) is Some implies closed_at(
                closed@,
                p,
            ) || contains_point(open@, p) by {
                assert(p == start@);
            }
        }
        while open.len() != 0
            invariant
                self.wf(),
                self.in_bounds(start@),
                self.in_bounds(finish@),
                w == self.width,
                h == self.height,
                grid_shape(closed@, w as int, h as int),
                grid_shape(gs@, w as int, h as int),
                grid_shape(par@, w as int, h as int),
                open_ok(*self, open@, closed@, gs@),
                closed_scored(*self, closed@, gs@),
                chain_ok(*self, start@, gs@, par@),
                parents_closed(*self, par@, closed@),
                scores_bounded(*self, gs@, cnt as nat),
                closure_ok(*self, open@, closed@),
                f_dominance(*self, open@, closed@, gs@, finish@),
                edge_bound(*self, closed@, gs@),
                scored_tracked(*self, open@, closed@, gs@),
                cnt == sum_grid(closed_weight(closed@), w as int, h as int),
                cnt <= w * h,
                !closed_at(closed@, finish@),
                closed_at(closed@, start@) || contains_point(open@, start@),
            decreases w * h - cnt,
        {
            let mut best: usize = 0;
            let g0 = match gs[open[0].x][open[0].y] {
                Some(v) => v,
                None => 0,
            };
            let mut best_f: u128 = Self::fscore(g0, open[0], finish);
            proof {
                assert(score_at(gs@, open@[0]@) == Some(g0));
                assert(best_f == fval(gs@, open@[0]@, finish@));
            }
            let mut i: usize = 1;
            while i < open.len()
                invariant
                    1 <= i <= open@.len(),
                    best < i,
                    open@.len() >= 1,
                    self.wf(),
                    w == self.width,
                    h == self.height,
                    self.in_bounds(finish@),
                    grid_shape(gs@, w as int, h as int),
                    open_ok(*self, open@, closed@, gs@),
                    best_f == fval(gs@, open@[best as int]@, finish@),
                    forall|jj: int|
                        0 <= jj < i ==> best_f <= fval(gs@, (#[trigger] open@[jj])@, finish@),
                decreases open@.len() - i,
            {
                let p = open[i];
                let gi = match gs[p.x][p.y] {
                    Some(v) => v,
                    None => 0,
                };
                let fi = Self::fscore(gi, p, finish);
                proof {
                    assert(score_at(gs@, p@) == Some(gi));
                    assert(fi == fval(gs@, open@[i as int]@, finish@));
                }
                if fi < best_f {
                    best = i;
                    best_f = fi;
                }
                i = i + 1;
            }
            let current = open[best];
            if current.x == finish.x && current.y == finish.y {
                let ghost gfin: int = score_at(gs@, finish@)->0 as int;
                proof {
                    assert(current == finish);
                    assert(score_at(gs@, finish@) is Some);
                    // The goal undercuts every open estimate, so no walk
                    // from the start beats its recorded cost.
                    assert(fval(gs@, finish@, finish@) == best_f);
                    assert forall|idx: int|
                        0 <= idx < open@.len() implies fval(gs@, finish@, finish@) <= fval(
                        gs@,
                        (#[trigger] open@[idx])@,
                        finish@,
                    ) by {}
                    assert forall|s: Seq<(int, int)>|
                        path_ok(*self, s) && s.first() == start@ && s.last()
                            == finish@ implies s.len() - 1 >= gfin by {
                        lemma_goal_score_optimal(
                            *self,
                            start@,
                            finish@,
                            open@,
                            closed@,
                            gs@,
                            s,
                        );
                    }
                }
                let path = self.walk_back(start, finish, &gs, &par);
                proof {
                    assert(path@.len() == gfin + 1);
                }
                proof {
                    // The path itself witnesses that the goal is reachable.
                    let s = crate::maze::points_of(path@);
                    assert(s.len() == path@.len());
                    assert forall|k: int| 0 <= k < s.len() implies self.in_bounds(
                        #[trigger] s[k],
                    ) by {
                        assert(s[k] == path@[k]@);
                    }
                    assert forall|k: int| 0 <= k < s.len() - 1 implies self.open_adj(
                        #[trigger] s[k],
                        s[k + 1],
                    ) by {
                        assert(s[k] == path@[k]@ && s[k + 1] == path@[k + 1]@);
                    }
                    assert(path_ok(*self, s) && s.first() == start@ && s.last() == finish@);
                    assert(reachable(*self, start@, finish@));
                }
                return Some(path);
            }
            self.expand_cell(
                start,
                finish,
                &mut open,
                &mut closed,
                &mut gs,
                &mut par,
                &mut cnt,
                best,
            );
        }
        proof {
            let m = *self;
            let cset = Set::new(|p: (int, int)| m.in_bounds(p) && closed_at(closed@, p));
            assert(closed_at(closed@, start@));
            assert(cset.contains(start@));
            assert(!reachable(*self, start@, finish@)) by {
                if reachable(m, start@, finish@) {
                    let s = choose|s: Seq<(int, int)>|
                        path_ok(m, s) && s.first() == start@ && s.last() == finish@;
                    assert forall|p: (int, int), q: (int, int)|
                        cset.contains(p) && m.open_adj(p, q) implies cset.contains(q) by {
                        assert(closed_at(closed@, q) || contains_point(open@, q));
                    }
                    lemma_path_stays_inside(m, s, cset);
                    assert(cset.contains(finish@));
                }
            }
        }
        None
    }

    /// Expands the cheapest open cell `open[best]`: removes it from the
    /// open set, closes it, and relaxes each of its open neighbors. All the
    /// search invariants come out intact, with one more cell closed.
    #[verifier::rlimit(100)]
    fn expand_cell(
        &self,
        start: Point,
        finish: Point,
        open: &mut Vec<Point>,
        closed: &mut Vec<Vec<bool>>,
        gs: &mut Vec<Vec<Option<usize>>>,
        par: &mut Vec<Vec<Option<Point>>>,
        cnt: &mut usize,
        best: usize,
    )
        requires
            self.wf(),
            self.in_bounds(start@),
            self.in_bounds(finish@),
            grid_shape(old(closed)@, self.width as int, self.height as int),
            grid_shape(old(gs)@, self.width as int, self.height as int),
            grid_shape(old(par)@, self.width as int, self.height as int),
            open_ok(*self, old(open)@, old(closed)@, old(gs)@),
            closed_scored(*self, old(closed)@, old(gs)@),
            chain_ok(*self, start@, old(gs)@, old(par)@),
            parents_closed(*self, old(par)@, old(closed)@),
            scores_bounded(*self, old(gs)@, *old(cnt) as nat),
            closure_ok(*self, old(open)@, old(closed)@),
            f_dominance(*self, old(open)@, old(closed)@, old(gs)@, finish@),
            edge_bound(*self, old(closed)@, old(gs)@),
            scored_tracked(*self, old(open)@, old(closed)@, old(gs)@),
            *old(cnt) == sum_grid(
                closed_weight(old(closed)@),
                self.width as int,
                self.height as int,
            ),
            *old(cnt) <= self.width * self.height,
            !closed_at(old(closed)@, finish@),
            closed_at(old(closed)@, start@) || contains_point(old(open)@, start@),
            best < old(open)@.len(),
            old(open)@[best as int]@ != finish@,
            forall|jj: int|
                0 <= jj < old(open)@.len() ==> fval(
                    old(gs)@,
                    old(open)@[best as int]@,
                    finish@,
                ) <= fval(old(gs)@, (#[trigger] old(open)@[jj])@, finish@),
        ensures
            grid_shape(final(closed)@, self.width as int, self.height as int),
            grid_shape(final(gs)@, self.width as int, self.height as int),
            grid_shape(final(par)@, self.width as int, self.height as int),
            open_ok(*self, final(open)@, final(closed)@, final(gs)@),
            closed_scored(*self, final(closed)@, final(gs)@),
            chain_ok(*self, start@, final(gs)@, final(par)@),
            parents_closed(*self, final(par)@, final(closed)@),
            scores_bounded(*self, final(gs)@, *final(cnt) as nat),
            closure_ok(*self, final(open)@, final(closed)@),
            f_dominance(*self, final(open)@, final(closed)@, final(gs)@, finish@),
            edge_bound(*self, final(closed)@, final(gs)@),
            scored_tracked(*self, final(open)@, final(closed)@, final(gs)@),
            *final(cnt) == sum_grid(
                closed_weight(final(closed)@),
                self.width as int,
                self.height as int,
            ),
            *final(cnt) <= self.width * self.height,
            *final(cnt) == *old(cnt) + 1,
            !closed_at(final(closed)@, finish@),
            closed_at(final(closed)@, start@) || contains_point(final(open)@, start@),
    {
        let w = self.width;
        let h = self.height;
        let current = open[best];
        let ghost open_pre = old(open)@;
        let _removed = open.remove(best);
        let ghost closed_pre = closed@;
        {
            let col = &mut closed[current.x];
            col[current.y] = true;
        }
        proof {
            assert(current@ != finish@);
            assert(open_pre[best as int] == current);
            assert(score_at(gs@, current@) is Some);
            assert forall|p: (int, int)|
                self.in_bounds(p) && p != current@ implies #[trigger] closed_at(closed@, p)
                == closed_at(closed_pre, p) by {}
            assert(closed_at(closed@, current@));
            lemma_close_count(*self, closed_pre, closed@, current@, *cnt as int);
        }
        *cnt = *cnt + 1;
        let gcur = match gs[current.x][current.y] {
            Some(v) => v,
            None => 0,
        };
        let ghost fcur: int = fval(gs@, current@, finish@);
        proof {
            assert(score_at(gs@, current@) == Some(gcur));
            assert(fcur == gcur + manhattan_spec(current@, finish@));
                        lemma_close_current(
                *self,
                start@,
                finish@,
                open_pre,
                open@,
                closed_pre,
                closed@,
                gs@,
                best as int,
                fcur,
            );
            // The start stays tracked: it carries score zero.
            assert(score_at(gs@, start@) is Some);
        }
        let nbrs = self.neighbors(current);
        proof {
            self.lemma_neighbors_open_sound(current@);
        }
        let mut j: usize = 0;
        while j < nbrs.len()
            invariant
                self.wf(),
                self.in_bounds(start@),
                self.in_bounds(finish@),
                self.in_bounds(current@),
                w == self.width,
                h == self.height,
                j <= nbrs@.len(),
                crate::maze::points_of(nbrs@) == self.neighbors_open_spec(current@),
                grid_shape(closed@, w as int, h as int),
                grid_shape(gs@, w as int, h as int),
                grid_shape(par@, w as int, h as int),
                open_ok(*self, open@, closed@, gs@),
                closed_scored(*self, closed@, gs@),
                chain_ok(*self, start@, gs@, par@),
                parents_closed(*self, par@, closed@),
                scores_bounded(*self, gs@, *cnt as nat),
                scored_tracked(*self, open@, closed@, gs@),
                f_dominance(*self, open@, closed@, gs@, finish@),
                score_at(gs@, current@) == Some(gcur),
                fcur == gcur + manhattan_spec(current@, finish@),
                gcur < *cnt,
                *cnt <= w * h,
                closed_at(closed@, current@),
                !closed_at(closed@, finish@),
                closed_at(closed@, start@) || contains_point(open@, start@),
                forall|p: (int, int)|
                    self.in_bounds(p) && #[trigger] closed_at(closed@, p) ==> fval(
                        gs@,
                        p,
                        finish@,
                    ) <= fcur,
                forall|p: (int, int), q: (int, int)|
                    self.in_bounds(p) && closed_at(closed@, p) && p != current@
                        && self.open_adj(p, q) ==> closed_at(closed@, q) || contains_point(
                        open@,
                        q,
                    ),
                forall|p: (int, int), q: (int, int)|
                    self.in_bounds(p) && closed_at(closed@, p) && p != current@
                        && self.open_adj(p, q) ==> score_at(gs@, q) is Some && score_at(
                        gs@,
                        q,
                    )->0 <= score_at(gs@, p)->0 + 1,
                forall|i: int|
                    0 <= i < j ==> {
                        let q = (#[trigger] nbrs@[i])@;
                        closed_at(closed@, q) || contains_point(open@, q)
                    },
                forall|i: int|
                    0 <= i < j ==> score_at(gs@, (#[trigger] nbrs@[i])@) is Some && score_at(
                        gs@,
                        nbrs@[i]@,
                    )->0 <= gcur + 1,
            decreases nbrs@.len() - j,
        {
            let n = nbrs[j];
            let ghost open_entry = open@;
            let ghost gs_entry = gs@;
            proof {
                self.lemma_neighbors_open_sound(current@);
                assert(crate::maze::points_of(nbrs@)[j as int] == n@);
                assert(self.neighbors_open_spec(current@)[j as int] == n@);
                assert(self.open_adj(current@, n@));
                lemma_manhattan_consistent(current@, n@, finish@);
                assert(n@ != current@);
            }
            let n_closed = closed[n.x][n.y];
            if n_closed {
                proof {
                    // A closed neighbor was expanded at or below the
                    // current estimate, so its score is within one step.
                    assert(closed_at(closed@, n@));
                    assert(score_at(gs@, n@) is Some);
                    assert(fval(gs@, n@, finish@) <= fcur);
                    assert(score_at(gs@, n@)->0 <= gcur + 1);
                }
            } else {
                if !contains_pt(&open, n) {
                    proof {
                        // An untracked, unclosed cell carries no score
                        // yet, so the relaxation below will score it.
                        assert(score_at(gs@, n@) is None);
                    }
                    open.push(n);
                    proof {
                        assert(open@[open@.len() - 1] == n);
                        assert forall|p: (int, int)|
                            contains_point(open_entry, p) implies contains_point(
                            open@,
                            p,
                        ) by {
                            let i = choose|i: int|
                                0 <= i < open_entry.len() && (#[trigger] open_entry[i])@
                                    == p;
                            assert(open@[i] == open_entry[i]);
                        }
                    }
                }
                let tg = gcur + 1;
                let better = match gs[n.x][n.y] {
                    None => true,
                    Some(gn) => tg < gn,
                };
                if better {
                    let ghost gs_old = gs@;
                    let ghost par_old = par@;
                    {
                        let colp = &mut par[n.x];
                        colp[n.y] = Some(current);
                    }
                    {
                        let colg = &mut gs[n.x];
                        colg[n.y] = Some(tg);
                    }
                    proof {
                        assert forall|p: (int, int)|
                            self.in_bounds(p) && p != n@ implies #[trigger] score_at(
                            gs@,
                            p,
                        ) == score_at(gs_old, p) && parent_at(par@, p) == parent_at(
                            par_old,
                            p,
                        ) by {}
                        assert(score_at(gs@, n@) == Some(tg));
                        assert(parent_at(par@, n@) == Some(current));
                        lemma_chain_update(
                            *self,
                            start@,
                            gs_old,
                            gs@,
                            par_old,
                            par@,
                            closed@,
                            n@,
                            current,
                            tg,
                        );
                    }
                }
            }
            j = j + 1;
            proof {
                // Scores moved at most at `n`, downward, and the cell
                // behind every estimate of a closed cell is untouched.
                assert forall|p: (int, int)|
                    self.in_bounds(p) && p != n@ implies #[trigger] score_at(gs@, p)
                    == score_at(gs_entry, p) by {}
                assert forall|p: (int, int)|
                    self.in_bounds(p) && #[trigger] closed_at(closed@, p) implies fval(
                    gs@,
                    p,
                    finish@,
                ) <= fcur by {
                    assert(score_at(gs@, p) == score_at(gs_entry, p));
                    assert(fval(gs_entry, p, finish@) <= fcur);
                }
                // The new open set still dominates every closed cell.
                assert forall|p: (int, int), i: int|
                    #![trigger closed_at(closed@, p), open@[i]]
                    self.in_bounds(p) && closed_at(closed@, p) && 0 <= i
                        < open@.len() implies fval(gs@, p, finish@) <= fval(
                    gs@,
                    open@[i]@,
                    finish@,
                ) by {
                    if open@[i]@ == n@ {
                        if score_at(gs@, n@) == score_at(gs_entry, n@) {
                            // Unchanged score: the entry was open before.
                            assert(contains_point(open_entry, n@));
                            let k = choose|k: int|
                                0 <= k < open_entry.len() && (#[trigger] open_entry[k])@
                                    == n@;
                            assert(fval(gs_entry, p, finish@) <= fval(
                                gs_entry,
                                open_entry[k]@,
                                finish@,
                            ));
                        } else {
                            // Freshly relaxed: one step past the
                            // current cell, so no cheaper than it.
                            assert(score_at(gs@, n@)->0 == gcur + 1);
                            assert(fval(gs@, n@, finish@) >= fcur);
                        }
                    } else if i < open_entry.len() {
                        assert(open@[i] == open_entry[i]);
                        assert(fval(gs_entry, p, finish@) <= fval(
                            gs_entry,
                            open_entry[i]@,
                            finish@,
                        ));
                    } else {
                        assert(open@[i] == n);
                    }
                }
                assert forall|i: int| 0 <= i < j implies {
                    let q = (#[trigger] nbrs@[i])@;
                    closed_at(closed@, q) || contains_point(open@, q)
                } by {
                    if i == j - 1 {
                        assert(nbrs@[i] == n);
                    }
                }
                assert forall|i: int|
                    0 <= i < j implies score_at(gs@, (#[trigger] nbrs@[i])@) is Some
                    && score_at(gs@, nbrs@[i]@)->0 <= gcur + 1 by {
                    if i < j - 1 {
                        assert(score_at(gs_entry, nbrs@[i]@) is Some && score_at(
                            gs_entry,
                            nbrs@[i]@,
                        )->0 <= gcur + 1);
                        if nbrs@[i]@ == n@ {
                        } else {
                            assert(crate::maze::points_of(nbrs@)[i] == nbrs@[i]@);
                            assert(self.open_adj(
                                current@,
                                self.neighbors_open_spec(current@)[i],
                            ));
                            assert(self.in_bounds(nbrs@[i]@));
                            assert(score_at(gs@, nbrs@[i]@) == score_at(gs_entry, nbrs@[i]@));
                        }
                    } else {
                        assert(nbrs@[i] == n);
                    }
                }
            }
        }
        proof {
            lemma_expand_closure(*self, current, nbrs@, open@, closed@, gs@, gcur);
        }
    }

    /// Rebuilds the found route by walking the predecessor records from
    /// `finish` back to `start`, then reversing, so the result runs from
    /// `start` to `finish`.
    fn walk_back(
        &self,
        start: Point,
        finish: Point,
        gs: &Vec<Vec<Option<usize>>>,
        par: &Vec<Vec<Option<Point>>>,
    ) -> (path: Vec<Point>)
        requires
            self.wf(),
            self.in_bounds(start@),
            self.in_bounds(finish@),
            grid_shape(gs@, self.width as int, self.height as int),
            grid_shape(par@, self.width as int, self.height as int),
            chain_ok(*self, start@, gs@, par@),
            score_at(gs@, finish@) is Some,
        ensures
            path@.len() >= 1,
            path@[0] == start,
            path@.last() == finish,
            forall|i: int| 0 <= i < path@.len() ==> self.in_bounds((#[trigger] path@[i])@),
            forall|i: int|
                0 <= i < path@.len() - 1 ==> self.open_adj((#[trigger] path@[i])@, path@[i + 1]@),
            forall|i: int, j: int| 0 <= i < j < path@.len() ==> path@[i] != path@[j],
            path@.len() == score_at(gs@, finish@)->0 + 1,
    {
        let mut rev: Vec<Point> = Vec::new();
        let mut cur = finish;
        rev.push(cur);
        loop
            invariant
                self.wf(),
                self.in_bounds(start@),
                self.in_bounds(cur@),
                grid_shape(gs@, self.width as int, self.height as int),
                grid_shape(par@, self.width as int, self.height as int),
                chain_ok(*self, start@, gs@, par@),
                score_at(gs@, cur@) is Some,
                rev@.len() >= 1,
                rev@[0] == finish,
                rev@.last() == cur,
                forall|i: int| 0 <= i < rev@.len() ==> self.in_bounds((#[trigger] rev@[i])@),
                forall|i: int|
                    0 <= i < rev@.len() - 1 ==> self.open_adj(
                        (#[trigger] rev@[i + 1])@,
                        rev@[i]@,
                    ),
                forall|i: int|
                    0 <= i < rev@.len() - 1 ==> score_at(gs@, (#[trigger] rev@[i + 1])@)->0
                        < score_at(gs@, rev@[i]@)->0,
                score_at(gs@, finish@)->0 == score_at(gs@, cur@)->0 + rev@.len() - 1,
            ensures
                parent_at(par@, cur@) is None,
                score_at(gs@, finish@)->0 == score_at(gs@, cur@)->0 + rev@.len() - 1,
            decreases score_at(gs@, cur@)->0,
        {
            let step = par[cur.x][cur.y];
            match step {
                Some(p) => {
                    proof {
                        assert(parent_at(par@, cur@) == Some(p));
                        assert(self.open_adj(p@, cur@));
                    }
                    rev.push(p);
                    cur = p;
                },
                None => {
                    break ;
                },
            }
        }
        proof {
            assert(cur@ == start@);
            assert(cur == start);
            assert(score_at(gs@, cur@) == Some(0usize));
            assert(rev@.len() == score_at(gs@, finish@)->0 + 1);
        }
        let mut path: Vec<Point> = Vec::new();
        let mut i = rev.len();
        while i > 0
            invariant
                i <= rev@.len(),
                path@.len() == rev@.len() - i,
                forall|j: int|
                    0 <= j < path@.len() ==> #[trigger] path@[j] == rev@[rev@.len() - 1 - j],
            decreases i,
        {
            i = i - 1;
            path.push(rev[i]);
        }
        proof {
            assert(path@[0] == rev@.last());
            assert(path@.last() == rev@[0]);
            assert forall|a: int, b: int| 0 <= a < b < path@.len() implies path@[a]
                != path@[b] by {
                let l = rev@.len();
                assert(path@[a] == rev@[l - 1 - a]);
                assert(path@[b] == rev@[l - 1 - b]);
                lemma_scores_fall(gs@, rev@, l - 1 - b, l - 1 - a);
            }
            assert forall|k: int|
                0 <= k < path@.len() - 1 implies self.open_adj(
                (#[trigger] path@[k])@,
                path@[k + 1]@,
            ) by {
                let l = rev@.len();
                assert(path@[k] == rev@[l - 1 - k]);
                assert(path@[k + 1] == rev@[l - 2 - k]);
                assert(self.open_adj(rev@[(l - 2 - k) + 1]@, rev@[l - 2 - k]@));
            }
        }
        path
    }
}

} // verus!
