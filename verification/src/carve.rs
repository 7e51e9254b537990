//! The maze carver: randomized iterative backtracking over an explicit
//! stack, turning a fully walled grid into a spanning tree of its cells.
//!
//! One step of the carver is the public `carve_step`, whose contract pins
//! the outcome exactly (`carve_step_rel`): the carver is deterministic given
//! its choices, which `lemma_carve_step_deterministic` states step by step
//! and `lemma_scripted_carves_agree` over whole runs — `carve` ensures that
//! a run under a scripted source is a `carve_run` replay of its script, and
//! two replays of one script end with identical walls and markers. The
//! `carve` loop drives the steps and proves, while it runs, that every
//! visited cell is reachable from the start, that every open passage joins
//! two visited cells, and that the open passages number one less than the
//! visited cells; a ghost predecessor map witnesses that the passages form a
//! tree. When the stack empties every cell has been visited, which yields
//! the spanning-tree shape: full connectivity, exactly
//! `width * height - 1` open edges, and no cycle.

use vstd::prelude::*;

use crate::counting::{
    lemma_sum_grid_agree, lemma_sum_grid_diff, lemma_sum_grid_le_one, lemma_sum_grid_one,
    lemma_sum_grid_zero,
};
use crate::maze::{dir_to, grid_adjacent, Cell, Dir, Maze, MazeError, Point};
use crate::reach::{
    lemma_all_visited, lemma_reachable_extend, lemma_reachable_monotone, lemma_reachable_refl,
    reachable,
};
use rand::RngExt;

verus! {

/// Relies on `rand::rng` and `rand::RngExt::random_range` over `0..n`: the
/// draw is a member of that range, so it is below `n`; the call panics only
/// on an empty range, which `n >= 1` rules out. Nothing more is assumed: the
/// draw may differ between two calls on the same `n`.
#[verifier::external_body]
fn random_below(n: usize) -> (r: usize)
    requires
        n >= 1,
    ensures
        r < n,
{
    rand::rng().random_range(0..n)
}

/// The carver's injectable source of uniform choices: either the operating
/// system's randomness, or a scripted list of values replayed one by one,
/// which makes a carve run reproducible.
pub enum Picker {
    /// Draw each choice from the process-wide random generator.
    System,
    /// Take the choices from `vals` in order, each reduced modulo the asked
    /// bound; past the end of the list the choice is zero.
    Scripted { vals: Vec<usize>, pos: usize },
}

impl Picker {
    /// A scripted source that starts at the first value of `vals`.
    pub fn scripted(vals: Vec<usize>) -> (r: Picker)
        ensures
            r == (Picker::Scripted { vals, pos: 0usize }),
    {
        Picker::Scripted { vals, pos: 0 }
    }

    /// One uniform choice below `n`. A scripted picker is a pure function of
    /// its state: the ensures pins both the choice and the successor state
    /// exactly, so replaying a script replays the choices.
    pub fn pick(&mut self, n: usize) -> (r: usize)
        requires
            n >= 1,
        ensures
            r < n,
            *old(self) is System ==> *final(self) == *old(self),
            *old(self) is Scripted ==> {
                let vals = (*old(self))->Scripted_vals;
                let pos = (*old(self))->Scripted_pos;
                if pos < vals@.len() {
                    &&& r == vals@[pos as int] as int % n as int
                    &&& *final(self) is Scripted
                    &&& (*final(self))->Scripted_vals == vals
                    &&& (*final(self))->Scripted_pos == pos + 1
                } else {
                    &&& r == 0
                    &&& *final(self) == *old(self)
                }
            },
    {
        match self {
            Picker::System => random_below(n),
            Picker::Scripted { vals, pos } => {
                if *pos < vals.len() {
                    let v = vals[*pos] % n;
                    *pos = *pos + 1;
                    v
                } else {
                    0
                }
            },
        }
    }
}

/// How a choice source may evolve over a run: drawing choices never turns
/// one kind of source into the other.
pub open spec fn picker_evolves(p1: Picker, p2: Picker) -> bool {
    &&& (p1 is System ==> p2 is System)
    &&& (p1 is Scripted ==> p2 is Scripted)
}

/// Whether the coordinate pair `p` occurs on the stack.
pub open spec fn in_stack(s: Seq<Point>, p: (int, int)) -> bool {
    exists|i: int| 0 <= i < s.len() && (#[trigger] s[i])@ == p
}

/// Every in-bounds 4-neighbor of `(x, y)` is visited: the cell can never
/// again offer the carver an unvisited neighbor.
pub open spec fn frontier_done(m: Maze, x: int, y: int) -> bool {
    forall|q: (int, int)| grid_adjacent((x, y), q) && m.in_bounds(q) ==> m.visited(q.0, q.1)
}

/// A closed walk through open passages that revisits no cell before coming
/// back to where it began: the shape the carver must never produce.
pub open spec fn simple_cycle(m: Maze, c: Seq<(int, int)>) -> bool {
    &&& c.len() >= 4
    &&& c.first() == c.last()
    &&& forall|i: int, j: int| 0 <= i < j < c.len() - 1 ==> c[i] != c[j]
    &&& forall|i: int| 0 <= i < c.len() - 1 ==> m.open_adj(#[trigger] c[i], c[i + 1])
}

/// What one carve step does, as an exact relation between the maze and
/// stack before and after. With the top of the stack as the current cell:
/// if it has no unvisited neighbor left, the maze is untouched and the cell
/// is popped; otherwise the neighbor picked by `pick` (reduced modulo the
/// number of candidates) is joined to the current cell by taking the shared
/// wall down, marked visited, and pushed.
pub open spec fn carve_step_rel(
    m: Maze,
    stack: Seq<Point>,
    pick: int,
    m2: Maze,
    stack2: Seq<Point>,
) -> bool {
    let current = stack.last()@;
    let nbrs = m.neighbors_unvisited_spec(current);
    if nbrs.len() == 0 {
        m2 == m && stack2 == stack.drop_last()
    } else {
        let nxt = nbrs[pick % nbrs.len() as int];
        &&& stack2 == stack.push(Point { x: nxt.0 as usize, y: nxt.1 as usize })
        &&& m2.width == m.width && m2.height == m.height && m2.trace == m.trace
        &&& forall|x: int, y: int|
            m.in_bounds((x, y)) ==> #[trigger] m2.visited(x, y) == (m.visited(x, y) || (x, y)
                == nxt)
        &&& forall|x: int, y: int, d: Dir|
            m.in_bounds((x, y)) ==> #[trigger] m2.wall(x, y, d) == (m.wall(x, y, d)
                && !Maze::on_shared_edge(current, nxt, x, y, d))
    }
}

/// Determinism of the carver, one step at a time: from the same maze, the
/// same stack and the same choice, any two outcomes of a carve step agree
/// on every wall, every visited marker, and the resulting stack.
pub proof fn lemma_carve_step_deterministic(
    m: Maze,
    stack: Seq<Point>,
    pick: int,
    ma: Maze,
    sa: Seq<Point>,
    mb: Maze,
    sb: Seq<Point>,
)
    requires
        stack.len() >= 1,
        carve_step_rel(m, stack, pick, ma, sa),
        carve_step_rel(m, stack, pick, mb, sb),
    ensures
        sa == sb,
        forall|x: int, y: int|
            m.in_bounds((x, y)) ==> #[trigger] ma.visited(x, y) == mb.visited(x, y),
        forall|x: int, y: int, d: Dir|
            m.in_bounds((x, y)) ==> #[trigger] ma.wall(x, y, d) == mb.wall(x, y, d),
{
    let current = stack.last()@;
    let nbrs = m.neighbors_unvisited_spec(current);
    if nbrs.len() == 0 {
    } else {
        let nxt = nbrs[pick % nbrs.len() as int];
        assert forall|x: int, y: int| m.in_bounds((x, y)) implies #[trigger] ma.visited(x, y)
            == mb.visited(x, y) by {
            assert(ma.visited(x, y) == (m.visited(x, y) || (x, y) == nxt));
            assert(mb.visited(x, y) == (m.visited(x, y) || (x, y) == nxt));
        }
        assert forall|x: int, y: int, d: Dir| m.in_bounds((x, y)) implies #[trigger] ma.wall(
            x,
            y,
            d,
        ) == mb.wall(x, y, d) by {
            assert(ma.wall(x, y, d) == (m.wall(x, y, d) && !Maze::on_shared_edge(
                current,
                nxt,
                x,
                y,
                d,
            )));
            assert(mb.wall(x, y, d) == (m.wall(x, y, d) && !Maze::on_shared_edge(
                current,
                nxt,
                x,
                y,
                d,
            )));
        }
    }
}

/// The choice a script dictates at position `pos` for `n` candidates:
/// the scripted value reduced modulo `n`, or zero past the script's end —
/// exactly what a `Scripted` picker answers.
pub open spec fn scripted_choice(vals: Seq<usize>, pos: int, n: int) -> int {
    if 0 <= pos < vals.len() {
        vals[pos] as int % n
    } else {
        0
    }
}

/// Where a script stands after one consumed choice: one further, unless it
/// was already exhausted.
pub open spec fn next_pos(vals: Seq<usize>, pos: int) -> int {
    if 0 <= pos < vals.len() {
        pos + 1
    } else {
        pos
    }
}

/// One step of a scripted replay, over states of maze, stack and script
/// position: the stack's top cell is in bounds; a dead end pops without
/// consuming the script, an expansion consumes the next scripted choice.
pub open spec fn run_step(
    vals: Seq<usize>,
    s1: (Maze, Seq<Point>, int),
    s2: (Maze, Seq<Point>, int),
) -> bool {
    &&& s1.1.len() >= 1
    &&& s1.0.in_bounds(s1.1.last()@)
    &&& if s1.0.neighbors_unvisited_spec(s1.1.last()@).len() == 0 {
        &&& carve_step_rel(s1.0, s1.1, 0, s2.0, s2.1)
        &&& s2.2 == s1.2
    } else {
        &&& carve_step_rel(
            s1.0,
            s1.1,
            scripted_choice(
                vals,
                s1.2,
                s1.0.neighbors_unvisited_spec(s1.1.last()@).len() as int,
            ),
            s2.0,
            s2.1,
        )
        &&& s2.2 == next_pos(vals, s1.2)
    }
}

/// The states chain up: each consecutive pair follows `run_step`. Kept
/// opaque because each link unfolds into cell-level formulas; proofs reveal
/// it only where they extend or consume the chain.
#[verifier::opaque]
pub open spec fn run_chain(vals: Seq<usize>, states: Seq<(Maze, Seq<Point>, int)>) -> bool {
    forall|i: int|
        0 <= i < states.len() - 1 ==> run_step(vals, #[trigger] states[i], states[i + 1])
}

/// A complete scripted replay of the carver: consecutive states follow
/// `run_step`, and the run ends exactly when the stack empties.
pub open spec fn carve_run(vals: Seq<usize>, states: Seq<(Maze, Seq<Point>, int)>) -> bool {
    &&& states.len() >= 1
    &&& run_chain(vals, states)
    &&& states.last().1.len() == 0
}

/// The two mazes carry the same picture: equal dimensions and, cell for
/// cell, the same walls and visited markers.
pub open spec fn same_cells(a: Maze, b: Maze) -> bool {
    &&& a.width == b.width
    &&& a.height == b.height
    &&& forall|x: int, y: int|
        a.in_bounds((x, y)) ==> #[trigger] a.cell(x, y) == b.cell(x, y)
}

/// Replay states that agree: same cells, same stack, same script position.
pub open spec fn same_run_state(a: (Maze, Seq<Point>, int), b: (Maze, Seq<Point>, int)) -> bool {
    &&& same_cells(a.0, b.0)
    &&& a.1 == b.1
    &&& a.2 == b.2
}

/// `b` is `a` with the one cell `p` marked visited and nothing else
/// changed: the grid as it stands when a carve run begins.
pub open spec fn marked_from(b: Maze, a: Maze, p: (int, int)) -> bool {
    &&& b.width == a.width
    &&& b.height == a.height
    &&& forall|x: int, y: int|
        a.in_bounds((x, y)) ==> #[trigger] b.cell(x, y) == (if x == p.0 && y == p.1 {
            Cell { filled: true, ..a.cell(x, y) }
        } else {
            a.cell(x, y)
        })
}

/// Mazes with the same picture offer the same unvisited neighbors: the
/// listing reads only the dimensions and in-bounds visited markers.
proof fn lemma_unvisited_congruent(a: Maze, b: Maze, p: (int, int))
    requires
        same_cells(a, b),
        a.in_bounds(p),
    ensures
        a.neighbors_unvisited_spec(p) == b.neighbors_unvisited_spec(p),
{
    if p.0 >= 1 {
        assert(a.cell(p.0 - 1, p.1) == b.cell(p.0 - 1, p.1));
    }
    if p.0 + 1 < a.width {
        assert(a.cell(p.0 + 1, p.1) == b.cell(p.0 + 1, p.1));
    }
    if p.1 >= 1 {
        assert(a.cell(p.0, p.1 - 1) == b.cell(p.0, p.1 - 1));
    }
    if p.1 + 1 < a.height {
        assert(a.cell(p.0, p.1 + 1) == b.cell(p.0, p.1 + 1));
    }
    assert(a.neighbors_unvisited_spec(p) =~= b.neighbors_unvisited_spec(p));
}

/// Replay steps are congruent: from states with the same picture, the same
/// stack and the same script position, one step leads to states that agree
/// again.
proof fn lemma_step_congruent(
    vals: Seq<usize>,
    s1a: (Maze, Seq<Point>, int),
    s2a: (Maze, Seq<Point>, int),
    s1b: (Maze, Seq<Point>, int),
    s2b: (Maze, Seq<Point>, int),
)
    requires
        run_step(vals, s1a, s2a),
        run_step(vals, s1b, s2b),
        same_run_state(s1a, s1b),
    ensures
        same_run_state(s2a, s2b),
{
    let cur = s1a.1.last()@;
    lemma_unvisited_congruent(s1a.0, s1b.0, cur);
    let nbrs = s1a.0.neighbors_unvisited_spec(cur);
    if nbrs.len() == 0 {
        assert(s2a.0 == s1a.0 && s2b.0 == s1b.0);
    } else {
        let n = nbrs.len() as int;
        let pk = scripted_choice(vals, s1a.2, n);
        let nxt = nbrs[pk % n];
        assert(s2a.1 == s1a.1.push(Point { x: nxt.0 as usize, y: nxt.1 as usize }));
        assert(s2b.1 == s1b.1.push(Point { x: nxt.0 as usize, y: nxt.1 as usize }));
        assert forall|x: int, y: int| s2a.0.in_bounds((x, y)) implies #[trigger] s2a.0.cell(
            x,
            y,
        ) == s2b.0.cell(x, y) by {
            assert(s1a.0.in_bounds((x, y)));
            assert(s1a.0.cell(x, y) == s1b.0.cell(x, y));
            assert(s2a.0.visited(x, y) == (s1a.0.visited(x, y) || (x, y) == nxt));
            assert(s2b.0.visited(x, y) == (s1b.0.visited(x, y) || (x, y) == nxt));
            assert(s2a.0.wall(x, y, Dir::N) == (s1a.0.wall(x, y, Dir::N)
                && !Maze::on_shared_edge(cur, nxt, x, y, Dir::N)));
            assert(s2b.0.wall(x, y, Dir::N) == (s1b.0.wall(x, y, Dir::N)
                && !Maze::on_shared_edge(cur, nxt, x, y, Dir::N)));
            assert(s2a.0.wall(x, y, Dir::S) == (s1a.0.wall(x, y, Dir::S)
                && !Maze::on_shared_edge(cur, nxt, x, y, Dir::S)));
            assert(s2b.0.wall(x, y, Dir::S) == (s1b.0.wall(x, y, Dir::S)
                && !Maze::on_shared_edge(cur, nxt, x, y, Dir::S)));
            assert(s2a.0.wall(x, y, Dir::E) == (s1a.0.wall(x, y, Dir::E)
                && !Maze::on_shared_edge(cur, nxt, x, y, Dir::E)));
            assert(s2b.0.wall(x, y, Dir::E) == (s1b.0.wall(x, y, Dir::E)
                && !Maze::on_shared_edge(cur, nxt, x, y, Dir::E)));
            assert(s2a.0.wall(x, y, Dir::W) == (s1a.0.wall(x, y, Dir::W)
                && !Maze::on_shared_edge(cur, nxt, x, y, Dir::W)));
            assert(s2b.0.wall(x, y, Dir::W) == (s1b.0.wall(x, y, Dir::W)
                && !Maze::on_shared_edge(cur, nxt, x, y, Dir::W)));
            assert(s2a.0.cell(x, y) == s2b.0.cell(x, y));
        }
    }
}

/// Two replays of the same script from agreeing first states agree at
/// every step they both reach.
proof fn lemma_run_prefix_agree(
    vals: Seq<usize>,
    sa: Seq<(Maze, Seq<Point>, int)>,
    sb: Seq<(Maze, Seq<Point>, int)>,
    k: int,
)
    requires
        carve_run(vals, sa),
        carve_run(vals, sb),
        same_run_state(sa[0], sb[0]),
        0 <= k < sa.len(),
        k < sb.len(),
    ensures
        same_run_state(sa[k], sb[k]),
    decreases k,
{
    if k > 0 {
        lemma_run_prefix_agree(vals, sa, sb, k - 1);
        reveal(run_chain);
        assert(run_step(vals, sa[k - 1], sa[k]));
        assert(run_step(vals, sb[k - 1], sb[k]));
        lemma_step_congruent(vals, sa[k - 1], sa[k], sb[k - 1], sb[k]);
    }
}

/// Determinism of the carver over whole runs: two complete replays of the
/// same script from the same picture, stack and script position take
/// equally many steps and end in mazes with identical wall configurations
/// and visited markers.
pub proof fn lemma_carve_runs_identical(
    vals: Seq<usize>,
    sa: Seq<(Maze, Seq<Point>, int)>,
    sb: Seq<(Maze, Seq<Point>, int)>,
)
    requires
        carve_run(vals, sa),
        carve_run(vals, sb),
        same_run_state(sa.first(), sb.first()),
    ensures
        sa.len() == sb.len(),
        same_run_state(sa.last(), sb.last()),
{
    reveal(run_chain);
    assert(sa.len() == sb.len()) by {
        if sa.len() < sb.len() {
            let k = sa.len() - 1;
            lemma_run_prefix_agree(vals, sa, sb, k);
            assert(sa[k].1.len() == 0);
            assert(run_step(vals, sb[k], sb[k + 1]));
            assert(false);
        } else if sb.len() < sa.len() {
            let k = sb.len() - 1;
            lemma_run_prefix_agree(vals, sa, sb, k);
            assert(sb[k].1.len() == 0);
            assert(run_step(vals, sa[k], sa[k + 1]));
            assert(false);
        }
    }
    lemma_run_prefix_agree(vals, sa, sb, sa.len() - 1);
}

/// Determinism of the generator, end to end: two scripted carves that
/// start from grids with the same picture, the same start cell and the
/// same script position end with the same picture — identical walls and
/// visited markers everywhere. The hypotheses are exactly what `carve`
/// ensures of a run with a `Scripted` picker.
pub proof fn lemma_scripted_carves_agree(
    vals: Seq<usize>,
    start: Point,
    pos: int,
    m_a: Maze,
    f_a: Maze,
    m_b: Maze,
    f_b: Maze,
)
    requires
        same_cells(m_a, m_b),
        exists|states: Seq<(Maze, Seq<Point>, int)>| {
            &&& carve_run(vals, states)
            &&& marked_from(states.first().0, m_a, start@)
            &&& states.first().1 == seq![start]
            &&& states.first().2 == pos
            &&& states.last().0 == f_a
        },
        exists|states: Seq<(Maze, Seq<Point>, int)>| {
            &&& carve_run(vals, states)
            &&& marked_from(states.first().0, m_b, start@)
            &&& states.first().1 == seq![start]
            &&& states.first().2 == pos
            &&& states.last().0 == f_b
        },
    ensures
        same_cells(f_a, f_b),
{
    let ta = choose|states: Seq<(Maze, Seq<Point>, int)>| {
        &&& carve_run(vals, states)
        &&& marked_from(states.first().0, m_a, start@)
        &&& states.first().1 == seq![start]
        &&& states.first().2 == pos
        &&& states.last().0 == f_a
    };
    let tb = choose|states: Seq<(Maze, Seq<Point>, int)>| {
        &&& carve_run(vals, states)
        &&& marked_from(states.first().0, m_b, start@)
        &&& states.first().1 == seq![start]
        &&& states.first().2 == pos
        &&& states.last().0 == f_b
    };
    assert(same_cells(ta.first().0, tb.first().0)) by {
        assert forall|x: int, y: int|
            ta.first().0.in_bounds((x, y)) implies #[trigger] ta.first().0.cell(x, y)
            == tb.first().0.cell(x, y) by {
            assert(m_a.in_bounds((x, y)));
            assert(m_a.cell(x, y) == m_b.cell(x, y));
            assert(ta.first().0.cell(x, y) == (if x == start@.0 && y == start@.1 {
                Cell { filled: true, ..m_a.cell(x, y) }
            } else {
                m_a.cell(x, y)
            }));
            assert(tb.first().0.cell(x, y) == (if x == start@.0 && y == start@.1 {
                Cell { filled: true, ..m_b.cell(x, y) }
            } else {
                m_b.cell(x, y)
            }));
        }
    }
    lemma_carve_runs_identical(vals, ta, tb);
}

/// One more link of a replay: a carve step whose choice came from the
/// script extends the chain by one state.
proof fn lemma_run_extends(
    vals: Seq<usize>,
    m_before: Maze,
    stack_old: Seq<Point>,
    pos_old: int,
    m_after: Maze,
    stack_new: Seq<Point>,
    pos_new: int,
    k: int,
)
    requires
        stack_old.len() >= 1,
        m_before.in_bounds(stack_old.last()@),
        carve_step_rel(m_before, stack_old, k, m_after, stack_new),
        if m_before.neighbors_unvisited_spec(stack_old.last()@).len() == 0 {
            pos_new == pos_old
        } else {
            k == scripted_choice(
                vals,
                pos_old,
                m_before.neighbors_unvisited_spec(stack_old.last()@).len() as int,
            ) && pos_new == next_pos(vals, pos_old)
        },
    ensures
        run_step(vals, (m_before, stack_old, pos_old), (m_after, stack_new, pos_new)),
{
}

/// The carve loop's replay bookkeeping, bundled and kept opaque so the
/// loop carries a single fact: when the choice source is scripted, the
/// ghost trace is a `run_step` chain from the marked grid to the current
/// state, in step with the picker's script position.
#[verifier::opaque]
spec fn replay_state(
    old_p: Picker,
    p: Picker,
    script: Seq<usize>,
    pos0: int,
    m_old: Maze,
    start: Point,
    m: Maze,
    st: Seq<Point>,
    trace: Seq<(Maze, Seq<Point>, int)>,
) -> bool {
    old_p is Scripted ==> {
        &&& p is Scripted
        &&& p->Scripted_vals@ == script
        &&& trace.len() >= 1
        &&& trace.last().0 == m
        &&& trace.last().1 == st
        &&& trace.last().2 == p->Scripted_pos as int
        &&& run_chain(script, trace)
        &&& marked_from(trace.first().0, m_old, start@)
        &&& trace.first().1 == seq![start]
        &&& trace.first().2 == pos0
    }
}

/// A fully walled grid has no open edge and no visited cell.
proof fn lemma_walled_counts(m: Maze)
    requires
        m.wf(),
        m.all_walled(),
    ensures
        m.open_edge_count() == 0,
        m.visited_count() == 0,
{
    let w = m.width as int;
    let h = m.height as int;
    assert forall|x: int, y: int| 0 <= x < w && 0 <= y < h implies #[trigger] m.open_edge_weight()(
        x,
        y,
    ) == 0 by {
        assert(m.cell(x, y) == Cell::walled_spec());
    }
    assert forall|x: int, y: int| 0 <= x < w && 0 <= y < h implies #[trigger] m.visited_weight()(
        x,
        y,
    ) == 0 by {
        assert(m.cell(x, y) == Cell::walled_spec());
    }
    lemma_sum_grid_zero(m.open_edge_weight(), w, h);
    lemma_sum_grid_zero(m.visited_weight(), w, h);
}

/// The visited-cell count never exceeds the cell count.
proof fn lemma_visited_count_le(m: Maze)
    requires
        m.wf(),
    ensures
        m.visited_count() <= m.width * m.height,
{
    lemma_sum_grid_le_one(m.visited_weight(), m.width as int, m.height as int);
}

/// A grid whose every cell is visited has `width * height` visited cells.
proof fn lemma_visited_count_full(m: Maze)
    requires
        m.wf(),
        forall|x: int, y: int| m.in_bounds((x, y)) ==> m.visited(x, y),
    ensures
        m.visited_count() == m.width * m.height,
{
    lemma_sum_grid_one(m.visited_weight(), m.width as int, m.height as int);
}

/// Marking one unvisited cell visited raises the visited count by one and
/// leaves the open-edge count alone.
proof fn lemma_counts_mark(m1: Maze, m2: Maze, px: int, py: int)
    requires
        m1.wf(),
        m2.wf(),
        m1.width == m2.width,
        m1.height == m2.height,
        m1.in_bounds((px, py)),
        !m1.visited(px, py),
        forall|x: int, y: int|
            m1.in_bounds((x, y)) ==> #[trigger] m2.cell(x, y) == (if x == px && y == py {
                Cell { filled: true, ..m1.cell(x, y) }
            } else {
                m1.cell(x, y)
            }),
    ensures
        m2.visited_count() == m1.visited_count() + 1,
        m2.open_edge_count() == m1.open_edge_count(),
{
    let w = m1.width as int;
    let h = m1.height as int;
    let f = m1.visited_weight();
    let g = m2.visited_weight();
    assert forall|x: int, y: int| 0 <= x < w && 0 <= y < h && !(x == px && y == py) implies #[trigger] f(
        x,
        y,
    ) == g(x, y) by {
        assert(m2.cell(x, y) == m1.cell(x, y));
    }
    assert(g(px, py) == 1 && f(px, py) == 0);
    lemma_sum_grid_diff(f, g, px, py, w, h);
    assert forall|x: int, y: int| 0 <= x < w && 0 <= y < h implies #[trigger] m1.open_edge_weight()(
        x,
        y,
    ) == m2.open_edge_weight()(x, y) by {
        assert(m2.cell(x, y).wall_e == m1.cell(x, y).wall_e);
        assert(m2.cell(x, y).wall_s == m1.cell(x, y).wall_s);
    }
    lemma_sum_grid_agree(m1.open_edge_weight(), m2.open_edge_weight(), w, h);
}

/// One expansion step — wall pair down between `cur` and `nxt`, then `nxt`
/// marked — raises both headline counts by one: one more visited cell, one
/// more open edge.
proof fn lemma_counts_step(m1: Maze, m2: Maze, cur: (int, int), nxt: (int, int))
    requires
        m1.wf(),
        m2.wf(),
        m1.width == m2.width,
        m1.height == m2.height,
        m1.in_bounds(cur),
        m1.in_bounds(nxt),
        grid_adjacent(cur, nxt),
        m1.wall(cur.0, cur.1, dir_to(cur, nxt)),
        !m1.visited(nxt.0, nxt.1),
        forall|x: int, y: int|
            m1.in_bounds((x, y)) ==> #[trigger] m2.visited(x, y) == (m1.visited(x, y) || (x, y)
                == nxt),
        forall|x: int, y: int, d: Dir|
            m1.in_bounds((x, y)) ==> #[trigger] m2.wall(x, y, d) == (m1.wall(x, y, d)
                && !Maze::on_shared_edge(cur, nxt, x, y, d)),
    ensures
        m2.visited_count() == m1.visited_count() + 1,
        m2.open_edge_count() == m1.open_edge_count() + 1,
{
    let w = m1.width as int;
    let h = m1.height as int;
    // Visited count: the only change is at `nxt`.
    let f = m1.visited_weight();
    let g = m2.visited_weight();
    assert forall|x: int, y: int|
        0 <= x < w && 0 <= y < h && !(x == nxt.0 && y == nxt.1) implies #[trigger] f(x, y) == g(
        x,
        y,
    ) by {
        assert(m2.visited(x, y) == m1.visited(x, y));
    }
    assert(m2.visited(nxt.0, nxt.1));
    assert(g(nxt.0, nxt.1) == 1 && f(nxt.0, nxt.1) == 0);
    lemma_sum_grid_diff(f, g, nxt.0, nxt.1, w, h);
    // Edge count: only the west-or-north endpoint of the new passage
    // carries it, with its east or south flag.
    let a: (int, int) = if nxt.0 == cur.0 + 1 || nxt.1 == cur.1 + 1 {
        cur
    } else {
        nxt
    };
    let fe = m1.open_edge_weight();
    let ge = m2.open_edge_weight();
    assert forall|x: int, y: int|
        0 <= x < w && 0 <= y < h && !(x == a.0 && y == a.1) implies #[trigger] fe(x, y) == ge(
        x,
        y,
    ) by {
        assert(m2.wall(x, y, Dir::E) == (m1.wall(x, y, Dir::E) && !Maze::on_shared_edge(
            cur,
            nxt,
            x,
            y,
            Dir::E,
        )));
        assert(m2.wall(x, y, Dir::S) == (m1.wall(x, y, Dir::S) && !Maze::on_shared_edge(
            cur,
            nxt,
            x,
            y,
            Dir::S,
        )));
    }
    // The flag at `a` was up before the step: either it is the current
    // cell's own flag toward `nxt`, or the facing flag, equal by symmetry.
    assert(m1.wall(a.0, a.1, dir_to(a, if a == cur {
        nxt
    } else {
        cur
    })));
    assert(ge(a.0, a.1) == fe(a.0, a.1) + 1) by {
        assert(m2.wall(a.0, a.1, Dir::E) == (m1.wall(a.0, a.1, Dir::E) && !Maze::on_shared_edge(
            cur,
            nxt,
            a.0,
            a.1,
            Dir::E,
        )));
        assert(m2.wall(a.0, a.1, Dir::S) == (m1.wall(a.0, a.1, Dir::S) && !Maze::on_shared_edge(
            cur,
            nxt,
            a.0,
            a.1,
            Dir::S,
        )));
    }
    lemma_sum_grid_diff(fe, ge, a.0, a.1, w, h);
}

impl Maze {
    /// One step of the carver, as §`carve_step_rel` describes it: with the
    /// top of the stack as current cell, either backtrack off a dead end, or
    /// open a passage to the unvisited neighbor that `pick` selects. The
    /// relation pins the outcome exactly, so the step is a function of the
    /// maze, the stack and the choice.
    pub fn carve_step(&mut self, stack: &mut Vec<Point>, pick: usize)
        requires
            old(self).wf(),
            old(stack)@.len() >= 1,
            forall|i: int|
                0 <= i < old(stack)@.len() ==> old(self).in_bounds(
                    (#[trigger] old(stack)@[i])@,
                ),
        ensures
            final(self).wf(),
            final(self).same_shape(*old(self)),
            carve_step_rel(*old(self), old(stack)@, pick as int, *final(self), final(stack)@),
    {
        let current = stack[stack.len() - 1];
        let nbrs = self.unvisited_neighbor(current);
        if nbrs.len() == 0 {
            stack.pop();
            proof {
                assert(final(stack)@ =~= old(stack)@.drop_last());
            }
        } else {
            let k = pick % nbrs.len();
            let next = nbrs[k];
            proof {
                self.lemma_neighbors_unvisited_sound(current@);
                assert(crate::maze::points_of(nbrs@)[k as int] == next@);
                assert(self.neighbors_unvisited_spec(current@)[k as int] == next@);
            }
            let ghost m_before = *self;
            self.take_down_wall(current, next);
            let ghost m_mid = *self;
            let _ = self.mark_visited(next);
            stack.push(next);
            proof {
                lemma_step_cells(m_before, m_mid, *self, current@, next@);
                let nxt = m_before.neighbors_unvisited_spec(current@)[pick as int
                    % m_before.neighbors_unvisited_spec(current@).len() as int];
                assert(nxt == next@);
                assert(next == (Point { x: nxt.0 as usize, y: nxt.1 as usize }));
            }
        }
    }

    /// Carves a spanning tree into a fully walled grid by randomized
    /// iterative backtracking, drawing each neighbor choice from `picker`.
    ///
    /// Afterwards every cell is visited and reachable from `start` through
    /// open passages, exactly `width * height - 1` walls have been opened,
    /// and the open-passage graph has no cycle: it is a spanning tree of the
    /// grid.
    #[verifier::rlimit(100)]
    pub fn carve(&mut self, start: Point, picker: &mut Picker)
        requires
            old(self).wf(),
            old(self).all_walled(),
            old(self).in_bounds(start@),
        ensures
            final(self).wf(),
            final(self).same_shape(*old(self)),
            forall|x: int, y: int|
                final(self).in_bounds((x, y)) ==> #[trigger] final(self).visited(x, y),
            forall|x: int, y: int|
                final(self).in_bounds((x, y)) ==> reachable(*final(self), start@, (x, y)),
            final(self).open_edge_count() == final(self).width * final(self).height - 1,
            forall|c: Seq<(int, int)>| !simple_cycle(*final(self), c),
            picker_evolves(*old(picker), *final(picker)),
            *old(picker) is Scripted ==> exists|states: Seq<(Maze, Seq<Point>, int)>| {
                &&& carve_run((*old(picker))->Scripted_vals@, states)
                &&& marked_from(states.first().0, *old(self), start@)
                &&& states.first().1 == seq![start]
                &&& states.first().2 == (*old(picker))->Scripted_pos as int
                &&& states.last().0 == *final(self)
            },
    {
        let ghost s0: (int, int) = start@;
        let ghost script: Seq<usize> = if *picker is Scripted {
            (*picker)->Scripted_vals@
        } else {
            Seq::empty()
        };
        let ghost pos0: int = if *picker is Scripted {
            (*picker)->Scripted_pos as int
        } else {
            0
        };
        proof {
            lemma_walled_counts(*old(self));
        }
        let _ = self.mark_visited(start);
        let mut stack: Vec<Point> = Vec::new();
        stack.push(start);
        let ghost mut trace: Seq<(Maze, Seq<Point>, int)> = seq![(*self, stack@, pos0)];
        proof {
            assert(marked_from(*self, *old(self), s0));
            reveal(run_chain);
            assert(run_chain(script, trace));
            reveal(replay_state);
            assert(replay_state(
                *old(picker),
                *picker,
                script,
                pos0,
                *old(self),
                start,
                *self,
                stack@,
                trace,
            ));
        }
        let ghost mut parent: Map<(int, int), (int, int)> = Map::empty();
        let ghost mut ord: Map<(int, int), nat> = Map::empty().insert(s0, 0nat);
        let ghost mut step: nat = 1;
        proof {
            lemma_counts_mark(*old(self), *self, s0.0, s0.1);
            lemma_reachable_refl(*self, s0);
            assert forall|p: (int, int), q: (int, int)| self.open_adj(p, q) implies self.visited(
                p.0,
                p.1,
            ) && self.visited(q.0, q.1) by {
                assert(old(self).cell(p.0, p.1) == Cell::walled_spec());
            }
            lemma_visited_count_le(*self);
            assert forall|x: int, y: int|
                self.in_bounds((x, y)) && #[trigger] self.visited(x, y) implies (x, y) == s0 by {
                assert(old(self).cell(x, y) == Cell::walled_spec());
            }
            assert(stack@[0] == start);
            assert(in_stack(stack@, s0));
            assert(carve_inv(*self, stack@, s0));
            assert forall|p: (int, int), q: (int, int)| !self.open_adj(p, q) by {
                if self.in_bounds(p) {
                    assert(old(self).cell(p.0, p.1) == Cell::walled_spec());
                }
            }
            assert(tree_inv(*self, s0, parent, ord, step));
        }
        while stack.len() != 0
            invariant
                carve_inv(*self, stack@, s0),
                tree_inv(*self, s0, parent, ord, step),
                self.same_shape(*old(self)),
                s0 == start@,
                picker_evolves(*old(picker), *picker),
                replay_state(
                    *old(picker),
                    *picker,
                    script,
                    pos0,
                    *old(self),
                    start,
                    *self,
                    stack@,
                    trace,
                ),
            decreases
                    self.width * self.height - self.visited_count(),
                    stack@.len(),
        {
            let current = stack[stack.len() - 1];
            let nbrs = self.unvisited_neighbor(current);
            let k = if nbrs.len() > 0 {
                picker.pick(nbrs.len())
            } else {
                0
            };
            let ghost m_before = *self;
            let ghost stack_old = stack@;
            self.carve_step(&mut stack, k);
            proof {
                assert(m_before.neighbors_unvisited_spec(current@) == crate::maze::points_of(
                    nbrs@,
                ));
                if nbrs@.len() == 0 {
                    assert(*self == m_before && stack@ == stack_old.drop_last());
                    assert forall|q: (int, int)|
                        grid_adjacent(current@, q) && self.in_bounds(q) implies self.visited(
                        q.0,
                        q.1,
                    ) by {
                        self.lemma_neighbors_unvisited_empty(current@, q);
                    }
                    assert(stack@ =~= stack_old.subrange(0, stack_old.len() - 1));
                    lemma_carve_pop(*self, stack_old, stack@, s0);
                } else {
                    let nbrs_spec = m_before.neighbors_unvisited_spec(current@);
                    let nxt = nbrs_spec[k as int % nbrs_spec.len() as int];
                    assert(nbrs_spec.len() == nbrs@.len());
                    assert(k < nbrs@.len());
                    let klen: int = nbrs_spec.len() as int;
                    assert(k as int % klen == k as int) by (nonlinear_arith)
                        requires
                            0 <= k as int,
                            (k as int) < klen,
                    ;
                    m_before.lemma_neighbors_unvisited_sound(current@);
                    assert(m_before.in_bounds(nxt) && grid_adjacent(current@, nxt)
                        && !m_before.visited(nxt.0, nxt.1));
                    let nxt_p = Point { x: nxt.0 as usize, y: nxt.1 as usize };
                    assert(stack@ == stack_old.push(nxt_p));
                    lemma_carve_expand(m_before, *self, s0, current, nxt_p, stack_old, stack@);
                    lemma_tree_expand(m_before, *self, s0, current@, nxt, parent, ord, step);
                    parent = parent.insert(nxt, current@);
                    ord = ord.insert(nxt, step);
                    step = step + 1;
                }
            }
            proof {
                reveal(replay_state);
                if *old(picker) is Scripted {
                    let pos_old = trace.last().2;
                    let pos_new = (*picker)->Scripted_pos as int;
                    assert(stack_old.last() == current);
                    assert(m_before.in_bounds(stack_old.last()@));
                    if nbrs@.len() != 0 {
                        assert(k as int == scripted_choice(script, pos_old, nbrs@.len() as int));
                        assert(pos_new == next_pos(script, pos_old));
                    }
                    lemma_run_extends(
                        script,
                        m_before,
                        stack_old,
                        pos_old,
                        *self,
                        stack@,
                        pos_new,
                        k as int,
                    );
                    let prev = trace;
                    trace = trace.push((*self, stack@, pos_new));
                    assert(trace.last() == (*self, stack@, pos_new));
                    reveal(run_chain);
                    assert forall|i: int|
                        0 <= i < trace.len() - 1 implies run_step(
                        script,
                        #[trigger] trace[i],
                        trace[i + 1],
                    ) by {
                        if i < prev.len() - 1 {
                            assert(trace[i] == prev[i] && trace[i + 1] == prev[i + 1]);
                        } else {
                            assert(trace[i] == prev.last());
                            assert(trace[i + 1] == (*self, stack@, pos_new));
                        }
                    }
                    assert(run_chain(script, trace));
                    assert(trace.first() == prev.first());
                }
                assert(replay_state(
                    *old(picker),
                    *picker,
                    script,
                    pos0,
                    *old(self),
                    start,
                    *self,
                    stack@,
                    trace,
                ));
            }
        }
        proof {
            assert forall|p: (int, int), q: (int, int)|
                self.in_bounds(p) && self.in_bounds(q) && self.visited(p.0, p.1) && grid_adjacent(
                p,
                q,
            ) implies self.visited(q.0, q.1) by {
                assert(!in_stack(stack@, p));
                assert(frontier_done(*self, p.0, p.1));
            }
            assert forall|x: int, y: int| self.in_bounds((x, y)) implies #[trigger] self.visited(
                x,
                y,
            ) by {
                lemma_all_visited(*self, s0.0, s0.1, x, y);
            }
            assert forall|x: int, y: int| self.in_bounds((x, y)) implies reachable(
                *self,
                start@,
                (x, y),
            ) by {
                assert(self.visited(x, y));
            }
            lemma_visited_count_full(*self);
            assert forall|c: Seq<(int, int)>| !simple_cycle(*self, c) by {
                lemma_tree_no_cycle(*self, s0, parent, ord, step, c);
            }
            if *old(picker) is Scripted {
                reveal(replay_state);
                assert(trace.last().1.len() == 0);
                assert(carve_run(script, trace));
                assert(exists|states: Seq<(Maze, Seq<Point>, int)>| {
                    &&& carve_run((*old(picker))->Scripted_vals@, states)
                    &&& marked_from(states.first().0, *old(self), start@)
                    &&& states.first().1 == seq![start]
                    &&& states.first().2 == (*old(picker))->Scripted_pos as int
                    &&& states.last().0 == *self
                }) by {
                    assert(carve_run((*old(picker))->Scripted_vals@, trace));
                    assert(marked_from(trace.first().0, *old(self), start@));
                    assert(trace.first().1 == seq![start]);
                    assert(trace.first().2 == (*old(picker))->Scripted_pos as int);
                    assert(trace.last().0 == *self);
                }
            }
        }
    }

    /// Runs the carve loop with the process-wide random source: each
    /// neighbor choice is a fresh draw.
    pub fn maze_iter(&mut self, start: Point)
        requires
            old(self).wf(),
            old(self).all_walled(),
            old(self).in_bounds(start@),
        ensures
            final(self).wf(),
            final(self).same_shape(*old(self)),
            forall|x: int, y: int|
                final(self).in_bounds((x, y)) ==> #[trigger] final(self).visited(x, y),
            forall|x: int, y: int|
                final(self).in_bounds((x, y)) ==> reachable(*final(self), start@, (x, y)),
            final(self).open_edge_count() == final(self).width * final(self).height - 1,
            forall|c: Seq<(int, int)>| !simple_cycle(*final(self), c),
    {
        let mut picker = Picker::System;
        self.carve(start, &mut picker);
    }

    /// The checked generator entry: carves from `start` with the
    /// process-wide random source, or refuses an out-of-bounds start with
    /// `OutOfBounds`, leaving the grid untouched — the caller decides what
    /// the error means.
    pub fn try_generate(&mut self, start: Point) -> (r: Result<(), MazeError>)
        requires
            old(self).wf(),
            old(self).all_walled(),
        ensures
            final(self).wf(),
            final(self).same_shape(*old(self)),
            match r {
                Ok(()) => {
                    &&& old(self).in_bounds(start@)
                    &&& forall|x: int, y: int|
                        final(self).in_bounds((x, y)) ==> #[trigger] final(self).visited(x, y)
                    &&& forall|x: int, y: int|
                        final(self).in_bounds((x, y)) ==> reachable(*final(self), start@, (x, y))
                    &&& final(self).open_edge_count() == final(self).width * final(self).height
                        - 1
                    &&& forall|c: Seq<(int, int)>| !simple_cycle(*final(self), c)
                },
                Err(e) => {
                    &&& e == MazeError::OutOfBounds
                    &&& !old(self).in_bounds(start@)
                    &&& *final(self) == *old(self)
                },
            },
    {
        if start.x < self.width && start.y < self.height {
            self.generate(start);
            Ok(())
        } else {
            Err(MazeError::OutOfBounds)
        }
    }

    /// Carves the maze from `start`: the randomized entry point of the
    /// generator.
    pub fn generate(&mut self, start: Point)
        requires
            old(self).wf(),
            old(self).all_walled(),
            old(self).in_bounds(start@),
        ensures
            final(self).wf(),
            final(self).same_shape(*old(self)),
            forall|x: int, y: int|
                final(self).in_bounds((x, y)) ==> #[trigger] final(self).visited(x, y),
            forall|x: int, y: int|
                final(self).in_bounds((x, y)) ==> reachable(*final(self), start@, (x, y)),
            final(self).open_edge_count() == final(self).width * final(self).height - 1,
            forall|c: Seq<(int, int)>| !simple_cycle(*final(self), c),
    {
        self.maze_iter(start);
    }
}

/// The carve loop's invariant over the maze and the explicit stack: the
/// stack holds distinct visited in-bounds cells; every visited cell is
/// reachable from the start; a visited cell off the stack has no unvisited
/// neighbor left; every open passage joins two visited cells; and the open
/// passages number one less than the visited cells.
pub open spec fn carve_inv(m: Maze, stack: Seq<Point>, start: (int, int)) -> bool {
    &&& m.wf()
    &&& m.in_bounds(start)
    &&& m.visited(start.0, start.1)
    &&& forall|i: int|
        0 <= i < stack.len() ==> m.in_bounds((#[trigger] stack[i])@) && m.visited(
            stack[i]@.0,
            stack[i]@.1,
        )
    &&& forall|i: int, j: int| 0 <= i < j < stack.len() ==> stack[i] != stack[j]
    &&& forall|x: int, y: int|
        m.in_bounds((x, y)) && #[trigger] m.visited(x, y) ==> reachable(m, start, (x, y))
    &&& forall|x: int, y: int|
        m.in_bounds((x, y)) && #[trigger] m.visited(x, y) && !in_stack(stack, (x, y))
            ==> frontier_done(m, x, y)
    &&& forall|p: (int, int), q: (int, int)|
        m.open_adj(p, q) ==> m.visited(p.0, p.1) && m.visited(q.0, q.1)
    &&& m.visited_count() == m.open_edge_count() + 1
    &&& m.visited_count() <= m.width * m.height
}

/// The ghost tree structure the carver maintains: every visited cell but
/// the start hangs off a visited parent through an open passage, parents
/// come strictly earlier in visit order, and every open passage is such a
/// parent link. A graph of parent links with falling order cannot close a
/// cycle.
pub open spec fn tree_inv(
    m: Maze,
    start: (int, int),
    parent: Map<(int, int), (int, int)>,
    ord: Map<(int, int), nat>,
    step: nat,
) -> bool {
    &&& forall|p: (int, int)|
        #[trigger] ord.contains_key(p) <==> (m.in_bounds(p) && m.visited(p.0, p.1))
    &&& forall|p: (int, int)|
        #[trigger] parent.contains_key(p) <==> (m.in_bounds(p) && m.visited(p.0, p.1) && p
            != start)
    &&& forall|p: (int, int)|
        #[trigger] parent.contains_key(p) ==> {
            let q = parent[p];
            &&& m.open_adj(q, p)
            &&& ord.contains_key(q)
            &&& ord.contains_key(p)
            &&& ord[q] < ord[p]
        }
    &&& forall|p: (int, int)| #[trigger] ord.contains_key(p) ==> ord[p] < step
    &&& forall|p: (int, int), q: (int, int)|
        m.open_adj(p, q) ==> (parent.contains_key(q) && parent[q] == p) || (
        parent.contains_key(p) && parent[p] == q)
}

/// Popping a dead end off the stack keeps the invariant: the popped cell has
/// no unvisited neighbor left, so it no longer needs to sit on the stack.
proof fn lemma_carve_pop(m: Maze, stack_old: Seq<Point>, stack_new: Seq<Point>, start: (int, int))
    requires
        carve_inv(m, stack_old, start),
        stack_old.len() >= 1,
        stack_new == stack_old.subrange(0, stack_old.len() - 1),
        frontier_done(m, stack_old.last()@.0, stack_old.last()@.1),
    ensures
        carve_inv(m, stack_new, start),
{
    let current = stack_old.last();
    assert forall|x: int, y: int|
        m.in_bounds((x, y)) && #[trigger] m.visited(x, y) && !in_stack(
            stack_new,
            (x, y),
        ) implies frontier_done(m, x, y) by {
        if (x, y) == current@ {
            assert(frontier_done(m, x, y));
        } else if in_stack(stack_old, (x, y)) {
            let i = choose|i: int| 0 <= i < stack_old.len() && (#[trigger] stack_old[i])@ == (x, y);
            assert(stack_old[i] != current);
            assert(i < stack_old.len() - 1);
            assert(stack_new[i] == stack_old[i]);
            assert(in_stack(stack_new, (x, y)));
        }
    }
}

/// Pointwise effect of one expansion: taking down the wall pair between
/// `cur` and `nxt` (giving `m_mid`) and then marking `nxt` visited (giving
/// `m_after`) changes exactly the two facing wall flags and the one visited
/// marker.
proof fn lemma_step_cells(m_before: Maze, m_mid: Maze, m_after: Maze, cur: (int, int), nxt: (
    int,
    int,
))
    requires
        m_mid.width == m_before.width && m_mid.height == m_before.height,
        m_after.width == m_before.width && m_after.height == m_before.height,
        forall|x: int, y: int|
            m_before.in_bounds((x, y)) ==> #[trigger] m_mid.visited(x, y) == m_before.visited(
                x,
                y,
            ),
        forall|x: int, y: int, d: Dir|
            m_before.in_bounds((x, y)) ==> #[trigger] m_mid.wall(x, y, d) == (m_before.wall(
                x,
                y,
                d,
            ) && !Maze::on_shared_edge(cur, nxt, x, y, d)),
        forall|x: int, y: int|
            m_mid.in_bounds((x, y)) ==> #[trigger] m_after.cell(x, y) == (if x == nxt.0 && y
                == nxt.1 {
                Cell { filled: true, ..m_mid.cell(x, y) }
            } else {
                m_mid.cell(x, y)
            }),
    ensures
        forall|x: int, y: int|
            m_before.in_bounds((x, y)) ==> #[trigger] m_after.visited(x, y) == (m_before.visited(
                x,
                y,
            ) || (x, y) == nxt),
        forall|x: int, y: int, d: Dir|
            m_before.in_bounds((x, y)) ==> #[trigger] m_after.wall(x, y, d) == (m_before.wall(
                x,
                y,
                d,
            ) && !Maze::on_shared_edge(cur, nxt, x, y, d)),
{
    assert forall|x: int, y: int| m_before.in_bounds((x, y)) implies #[trigger] m_after.visited(
        x,
        y,
    ) == (m_before.visited(x, y) || (x, y) == nxt) by {
        assert(m_mid.visited(x, y) == m_before.visited(x, y));
        assert(m_after.cell(x, y) == (if x == nxt.0 && y == nxt.1 {
            Cell { filled: true, ..m_mid.cell(x, y) }
        } else {
            m_mid.cell(x, y)
        }));
    }
    assert forall|x: int, y: int, d: Dir|
        m_before.in_bounds((x, y)) implies #[trigger] m_after.wall(x, y, d) == (m_before.wall(
        x,
        y,
        d,
    ) && !Maze::on_shared_edge(cur, nxt, x, y, d)) by {
        assert(m_mid.wall(x, y, d) == (m_before.wall(x, y, d) && !Maze::on_shared_edge(
            cur,
            nxt,
            x,
            y,
            d,
        )));
        assert(m_after.cell(x, y) == (if x == nxt.0 && y == nxt.1 {
            Cell { filled: true, ..m_mid.cell(x, y) }
        } else {
            m_mid.cell(x, y)
        }));
        assert(m_after.cell(x, y).wall_spec(d) == m_mid.cell(x, y).wall_spec(d));
    }
}

/// How one expansion changes the open passages: every old passage stays
/// open, the passage between `cur` and `nxt` opens, and nothing else opens.
proof fn lemma_step_open_adj(m_before: Maze, m_after: Maze, cur: (int, int), nxt: (int, int))
    requires
        m_after.width == m_before.width && m_after.height == m_before.height,
        m_before.in_bounds(cur),
        m_before.in_bounds(nxt),
        grid_adjacent(cur, nxt),
        forall|x: int, y: int, d: Dir|
            m_before.in_bounds((x, y)) ==> #[trigger] m_after.wall(x, y, d) == (m_before.wall(
                x,
                y,
                d,
            ) && !Maze::on_shared_edge(cur, nxt, x, y, d)),
    ensures
        forall|p: (int, int), q: (int, int)| m_before.open_adj(p, q) ==> m_after.open_adj(p, q),
        m_after.open_adj(cur, nxt),
        forall|p: (int, int), q: (int, int)|
            m_after.open_adj(p, q) ==> m_before.open_adj(p, q) || (p == cur && q == nxt) || (p
                == nxt && q == cur),
{
    assert forall|p: (int, int), q: (int, int)| m_before.open_adj(p, q) implies m_after.open_adj(
        p,
        q,
    ) by {
        assert(m_after.wall(p.0, p.1, dir_to(p, q)) == (m_before.wall(p.0, p.1, dir_to(p, q))
            && !Maze::on_shared_edge(cur, nxt, p.0, p.1, dir_to(p, q))));
    }
    assert(m_after.wall(cur.0, cur.1, dir_to(cur, nxt)) == (m_before.wall(
        cur.0,
        cur.1,
        dir_to(cur, nxt),
    ) && !Maze::on_shared_edge(cur, nxt, cur.0, cur.1, dir_to(cur, nxt))));
    assert(Maze::on_shared_edge(cur, nxt, cur.0, cur.1, dir_to(cur, nxt)));
    assert(m_after.open_adj(cur, nxt));
    assert forall|p: (int, int), q: (int, int)| m_after.open_adj(p, q) implies m_before.open_adj(
        p,
        q,
    ) || (p == cur && q == nxt) || (p == nxt && q == cur) by {
        assert(m_after.wall(p.0, p.1, dir_to(p, q)) == (m_before.wall(p.0, p.1, dir_to(p, q))
            && !Maze::on_shared_edge(cur, nxt, p.0, p.1, dir_to(p, q))));
    }
}

/// After one expansion, every visited cell is still reachable from the
/// start: old passages persist, and `nxt` hangs off `cur` by the fresh one.
proof fn lemma_step_reach(m_before: Maze, m_after: Maze, start: (int, int), cur: (int, int), nxt: (
    int,
    int,
))
    requires
        m_after.width == m_before.width && m_after.height == m_before.height,
        m_before.in_bounds(cur),
        m_before.visited(cur.0, cur.1),
        forall|x: int, y: int|
            m_before.in_bounds((x, y)) && #[trigger] m_before.visited(x, y) ==> reachable(
                m_before,
                start,
                (x, y),
            ),
        forall|x: int, y: int|
            m_before.in_bounds((x, y)) ==> #[trigger] m_after.visited(x, y) == (m_before.visited(
                x,
                y,
            ) || (x, y) == nxt),
        forall|p: (int, int), q: (int, int)| m_before.open_adj(p, q) ==> m_after.open_adj(p, q),
        m_after.open_adj(cur, nxt),
    ensures
        forall|x: int, y: int|
            m_after.in_bounds((x, y)) && #[trigger] m_after.visited(x, y) ==> reachable(
                m_after,
                start,
                (x, y),
            ),
{
    assert forall|x: int, y: int|
        m_after.in_bounds((x, y)) && #[trigger] m_after.visited(x, y) implies reachable(
        m_after,
        start,
        (x, y),
    ) by {
        if m_before.visited(x, y) {
            lemma_reachable_monotone(m_before, m_after, start, (x, y));
        } else {
            assert((x, y) == nxt);
            lemma_reachable_monotone(m_before, m_after, start, cur);
            lemma_reachable_extend(m_after, start, cur, nxt);
        }
    }
}

/// After one expansion, every open passage still joins two visited cells:
/// the old ones did, and the fresh one joins `cur` to the newly marked `nxt`.
proof fn lemma_step_edges_visited(m_before: Maze, m_after: Maze, cur: (int, int), nxt: (int, int))
    requires
        m_after.width == m_before.width && m_after.height == m_before.height,
        m_before.visited(cur.0, cur.1),
        forall|p: (int, int), q: (int, int)|
            m_before.open_adj(p, q) ==> m_before.visited(p.0, p.1) && m_before.visited(q.0, q.1),
        forall|x: int, y: int|
            m_before.in_bounds((x, y)) ==> #[trigger] m_after.visited(x, y) == (m_before.visited(
                x,
                y,
            ) || (x, y) == nxt),
        forall|p: (int, int), q: (int, int)|
            m_after.open_adj(p, q) ==> m_before.open_adj(p, q) || (p == cur && q == nxt) || (p
                == nxt && q == cur),
    ensures
        forall|p: (int, int), q: (int, int)|
            m_after.open_adj(p, q) ==> m_after.visited(p.0, p.1) && m_after.visited(q.0, q.1),
{
    assert forall|p: (int, int), q: (int, int)| m_after.open_adj(p, q) implies m_after.visited(
        p.0,
        p.1,
    ) && m_after.visited(q.0, q.1) by {
        if m_before.open_adj(p, q) {
            assert(m_before.visited(p.0, p.1) && m_before.visited(q.0, q.1));
        }
    }
}

/// After one expansion, a visited cell off the grown stack is still done:
/// it was off the old stack, and the visited set only grew.
proof fn lemma_step_frontier(
    m_before: Maze,
    m_after: Maze,
    stack_old: Seq<Point>,
    stack_new: Seq<Point>,
    next: Point,
)
    requires
        m_after.width == m_before.width && m_after.height == m_before.height,
        stack_new == stack_old.push(next),
        forall|x: int, y: int|
            m_before.in_bounds((x, y)) ==> #[trigger] m_after.visited(x, y) == (m_before.visited(
                x,
                y,
            ) || (x, y) == next@),
        forall|x: int, y: int|
            m_before.in_bounds((x, y)) && #[trigger] m_before.visited(x, y) && !in_stack(
                stack_old,
                (x, y),
            ) ==> frontier_done(m_before, x, y),
    ensures
        forall|x: int, y: int|
            m_after.in_bounds((x, y)) && #[trigger] m_after.visited(x, y) && !in_stack(
                stack_new,
                (x, y),
            ) ==> frontier_done(m_after, x, y),
{
    assert forall|x: int, y: int|
        m_after.in_bounds((x, y)) && #[trigger] m_after.visited(x, y) && !in_stack(
            stack_new,
            (x, y),
        ) implies frontier_done(m_after, x, y) by {
        assert(stack_new[stack_new.len() - 1] == next);
        assert(in_stack(stack_new, next@));
        assert(m_before.visited(x, y));
        assert forall|i: int| 0 <= i < stack_old.len() implies (#[trigger] stack_old[i])@ != (
        x,
        y,
        ) by {
            assert(stack_new[i] == stack_old[i]);
        }
        assert(frontier_done(m_before, x, y));
        assert forall|q: (int, int)|
            grid_adjacent((x, y), q) && m_after.in_bounds(q) implies m_after.visited(q.0, q.1) by {
            assert(m_before.in_bounds(q));
            assert(m_before.visited(q.0, q.1));
        }
    }
}

/// Opening a passage to the fresh neighbor `next` and marking it visited
/// keeps the loop invariant, with `next` now on the stack.
proof fn lemma_carve_expand(
    m_before: Maze,
    m_after: Maze,
    start: (int, int),
    current: Point,
    next: Point,
    stack_old: Seq<Point>,
    stack_new: Seq<Point>,
)
    requires
        carve_inv(m_before, stack_old, start),
        m_after.wf(),
        m_after.width == m_before.width && m_after.height == m_before.height,
        stack_old.len() >= 1,
        current == stack_old.last(),
        stack_new == stack_old.push(next),
        m_before.in_bounds(next@),
        grid_adjacent(current@, next@),
        !m_before.visited(next@.0, next@.1),
        forall|x: int, y: int|
            m_before.in_bounds((x, y)) ==> #[trigger] m_after.visited(x, y) == (m_before.visited(
                x,
                y,
            ) || (x, y) == next@),
        forall|x: int, y: int, d: Dir|
            m_before.in_bounds((x, y)) ==> #[trigger] m_after.wall(x, y, d) == (m_before.wall(
                x,
                y,
                d,
            ) && !Maze::on_shared_edge(current@, next@, x, y, d)),
    ensures
        carve_inv(m_after, stack_new, start),
        m_after.visited_count() == m_before.visited_count() + 1,
{
    let cur = current@;
    let nxt = next@;
    // The wall toward `next` was still up: an open passage would have made
    // `next` visited already.
    if !m_before.wall(cur.0, cur.1, dir_to(cur, nxt)) {
        assert(m_before.open_adj(cur, nxt));
    }
    lemma_counts_step(m_before, m_after, cur, nxt);
    lemma_visited_count_le(m_after);
    lemma_step_open_adj(m_before, m_after, cur, nxt);
    lemma_step_reach(m_before, m_after, start, cur, nxt);
    lemma_step_edges_visited(m_before, m_after, cur, nxt);
    lemma_step_frontier(m_before, m_after, stack_old, stack_new, next);
    // Stack cells stay distinct: `next` was unvisited, stack cells visited.
    assert forall|i: int, j: int| 0 <= i < j < stack_new.len() implies stack_new[i]
        != stack_new[j] by {
        if j == stack_new.len() - 1 {
            assert(m_before.visited(stack_old[i]@.0, stack_old[i]@.1));
        }
    }
    assert forall|i: int|
        0 <= i < stack_new.len() implies m_after.in_bounds((#[trigger] stack_new[i])@)
        && m_after.visited(stack_new[i]@.0, stack_new[i]@.1) by {
        if i < stack_old.len() {
            assert(stack_new[i] == stack_old[i]);
            assert(m_before.visited(stack_old[i]@.0, stack_old[i]@.1));
        } else {
            assert(stack_new[i] == next);
        }
    }
}

/// One expansion keeps the ghost tree: the fresh cell `nxt` hangs off `cur`
/// with the newest visit order, and the fresh passage is its parent link.
proof fn lemma_tree_expand(
    m_before: Maze,
    m_after: Maze,
    start: (int, int),
    cur: (int, int),
    nxt: (int, int),
    parent: Map<(int, int), (int, int)>,
    ord: Map<(int, int), nat>,
    step: nat,
)
    requires
        tree_inv(m_before, start, parent, ord, step),
        m_after.width == m_before.width && m_after.height == m_before.height,
        m_before.in_bounds(cur),
        m_before.in_bounds(nxt),
        m_before.in_bounds(start),
        m_before.visited(start.0, start.1),
        m_before.visited(cur.0, cur.1),
        !m_before.visited(nxt.0, nxt.1),
        grid_adjacent(cur, nxt),
        forall|x: int, y: int|
            m_before.in_bounds((x, y)) ==> #[trigger] m_after.visited(x, y) == (m_before.visited(
                x,
                y,
            ) || (x, y) == nxt),
        forall|p: (int, int), q: (int, int)| m_before.open_adj(p, q) ==> m_after.open_adj(p, q),
        m_after.open_adj(cur, nxt),
        forall|p: (int, int), q: (int, int)|
            m_after.open_adj(p, q) ==> m_before.open_adj(p, q) || (p == cur && q == nxt) || (p
                == nxt && q == cur),
    ensures
        tree_inv(m_after, start, parent.insert(nxt, cur), ord.insert(nxt, step), step + 1),
{
    let parent2 = parent.insert(nxt, cur);
    let ord2 = ord.insert(nxt, step);
    assert(nxt != start);
    assert(!ord.contains_key(nxt));
    assert(!parent.contains_key(nxt));
    assert forall|p: (int, int)| #[trigger] parent2.contains_key(p) implies {
        let q = parent2[p];
        &&& m_after.open_adj(q, p)
        &&& ord2.contains_key(q)
        &&& ord2.contains_key(p)
        &&& ord2[q] < ord2[p]
    } by {
        if p == nxt {
            assert(parent2[p] == cur);
            assert(ord.contains_key(cur));
            assert(ord2[cur] == ord[cur]);
            assert(ord[cur] < step);
        } else {
            assert(parent.contains_key(p));
            let q = parent[p];
            assert(m_before.open_adj(q, p));
            assert(q != nxt && p != nxt);
            assert(ord2[q] == ord[q] && ord2[p] == ord[p]);
        }
    }
    assert forall|p: (int, int), q: (int, int)| m_after.open_adj(p, q) implies (
    parent2.contains_key(q) && parent2[q] == p) || (parent2.contains_key(p) && parent2[p]
        == q) by {
        if m_before.open_adj(p, q) {
            assert((parent.contains_key(q) && parent[q] == p) || (parent.contains_key(p)
                && parent[p] == q));
            assert(p != nxt && q != nxt);
        }
    }
}

/// A graph whose every edge is a parent link with strictly falling visit
/// order cannot close a simple cycle: at the cycle's latest-visited cell
/// both incident edges would have to lead to its one parent, yet a simple
/// cycle approaches each cell through two different neighbors.
proof fn lemma_tree_no_cycle(
    m: Maze,
    start: (int, int),
    parent: Map<(int, int), (int, int)>,
    ord: Map<(int, int), nat>,
    step: nat,
    c: Seq<(int, int)>,
)
    requires
        tree_inv(m, start, parent, ord, step),
    ensures
        !simple_cycle(m, c),
{
    if simple_cycle(m, c) {
        let len = c.len() as int;
        // Every cell on the cycle has a visit order: each is an endpoint of
        // an open passage, and both endpoints of a parent link are ordered.
        assert forall|j: int| 0 <= j < len - 1 implies ord.contains_key(#[trigger] c[j]) by {
            assert(m.open_adj(c[j], c[j + 1]));
        }
        let i = max_ord_index(ord, c, len - 1);
        let top = c[i];
        let prev = if i == 0 {
            c[len - 2]
        } else {
            c[i - 1]
        };
        let nxt = c[i + 1];
        assert(m.open_adj(top, nxt));
        assert(m.open_adj(prev, top)) by {
            if i == 0 {
                assert(m.open_adj(c[len - 2], c[len - 1]));
                assert(c[len - 1] == c[0]);
            }
        }
        // Both cycle neighbors of `top` carry a visit order too.
        assert(ord.contains_key(prev)) by {
            if i == 0 {
                assert(ord.contains_key(c[len - 2]));
            }
        }
        assert(ord[prev] <= ord[top]) by {
            if i == 0 {
                assert(ord[c[len - 2]] <= ord[c[i]]);
            }
        }
        assert(ord.contains_key(nxt) && ord[nxt] <= ord[top]) by {
            if i + 1 == len - 1 {
                assert(c[i + 1] == c[0]);
                assert(ord[c[0]] <= ord[c[i]]);
            }
        }
        // Each incident edge is a parent link; `top` cannot be the parent
        // of either neighbor, for the parent comes strictly earlier.
        assert(parent.contains_key(top) && parent[top] == prev) by {
            if parent.contains_key(prev) && parent[prev] == top {
                assert(ord[top] < ord[prev]);
            }
        }
        assert(parent.contains_key(top) && parent[top] == nxt) by {
            if parent.contains_key(nxt) && parent[nxt] == top {
                assert(ord[top] < ord[nxt]);
            }
        }
        // So both neighbors are the same cell: impossible on a simple cycle
        // of at least three distinct cells.
        assert(prev == nxt);
        assert(len - 1 >= 3);
        if i == 0 {
            assert(c[len - 2] != c[1]);
        } else if i + 1 == len - 1 {
            assert(c[i - 1] != c[0]);
        } else {
            assert(c[i - 1] != c[i + 1]);
        }
        assert(false);
    }
}

/// An index of a cell with the greatest visit order among the first `k`
/// cells of the walk.
proof fn max_ord_index(ord: Map<(int, int), nat>, c: Seq<(int, int)>, k: int) -> (i: int)
    requires
        1 <= k <= c.len(),
        forall|j: int| 0 <= j < k ==> ord.contains_key(#[trigger] c[j]),
    ensures
        0 <= i < k,
        forall|j: int| 0 <= j < k ==> ord[#[trigger] c[j]] <= ord[c[i]],
    decreases k,
{
    if k == 1 {
        0
    } else {
        let i0 = max_ord_index(ord, c, k - 1);
        if ord[c[k - 1]] > ord[c[i0]] {
            k - 1
        } else {
            i0
        }
    }
}

} // verus!
