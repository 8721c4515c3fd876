//! Shortest paths on a bounded grid with blocked cells: the model of a walk
//! and its cost, and an A* planner for four- and eight-connected movement.

use crate::frontier::{
    cell_map_get, cell_map_insert, cell_set_contains, cell_set_insert, frontier_entries,
    frontier_new, frontier_pop, frontier_push,
};
use crate::grid::{gap, gap_wide, manhattan, Cell, GridPos};
use priority_queue::PriorityQueue;
use rustc_hash::{FxHashMap, FxHashSet};
use std::cmp::Reverse;
use vstd::prelude::*;

verus! {

/// Outcome of a planner call.
#[derive(Debug, Clone)]
pub struct PathResult {
    pub path: Vec<GridPos>,
    pub total_cost: i32,
    pub found: bool,
}

/// Namespace of the planners.
pub struct PathfindingEngine;

/// The coordinates of a position, as the key the planner's tables use.
pub open spec fn cell_of(p: GridPos) -> Cell {
    (p.x, p.y)
}

/// The cell lies in the `w` by `h` grid.
pub open spec fn cell_in_grid(c: Cell, w: int, h: int) -> bool {
    0 <= c.0 < w && 0 <= c.1 < h
}

/// Whether the planner may move from `a` to `b` in one step: `b` is a free
/// cell of the grid next to `a`, and a diagonal move (eight-connected mode
/// only) does not squeeze past a blocked cell on either side.
pub open spec fn cell_step(
    a: Cell,
    b: Cell,
    blocked: Set<Cell>,
    w: int,
    h: int,
    diagonal: bool,
) -> bool {
    let dx = b.0 - a.0;
    let dy = b.1 - a.1;
    &&& cell_in_grid(b, w, h)
    &&& !blocked.contains(b)
    &&& -1 <= dx <= 1
    &&& -1 <= dy <= 1
    &&& (dx != 0 || dy != 0)
    &&& (dx != 0 && dy != 0 ==> diagonal && !blocked.contains((b.0, a.1)) && !blocked.contains(
        (a.0, b.1),
    ))
}

/// Cost of one step: 1 in four-connected mode; in eight-connected mode 10 for
/// a straight step and 14 for a diagonal one.
pub open spec fn cell_step_cost(a: Cell, b: Cell, diagonal: bool) -> int {
    if !diagonal {
        1
    } else if a.0 != b.0 && a.1 != b.1 {
        14
    } else {
        10
    }
}

/// Whether the planner may move from `a` to `b` in one step.
pub open spec fn is_step(
    a: GridPos,
    b: GridPos,
    blocked: Set<Cell>,
    w: int,
    h: int,
    diagonal: bool,
) -> bool {
    cell_step(cell_of(a), cell_of(b), blocked, w, h, diagonal)
}

/// Cost of the step from `a` to `b`.
pub open spec fn step_cost(a: GridPos, b: GridPos, diagonal: bool) -> int {
    cell_step_cost(cell_of(a), cell_of(b), diagonal)
}

/// A non-empty sequence of positions in which each one is a step away from
/// the one before.
pub open spec fn is_walk(
    path: Seq<GridPos>,
    blocked: Set<Cell>,
    w: int,
    h: int,
    diagonal: bool,
) -> bool {
    &&& path.len() >= 1
    &&& forall|i: int|
        0 <= i < path.len() - 1 ==> is_step(#[trigger] path[i], path[i + 1], blocked, w, h, diagonal)
}

/// Sum of the step costs along a walk.
pub open spec fn walk_cost(path: Seq<GridPos>, diagonal: bool) -> int
    decreases path.len(),
{
    if path.len() <= 1 {
        0
    } else {
        walk_cost(path.drop_last(), diagonal) + step_cost(
            path[path.len() - 2],
            path.last(),
            diagonal,
        )
    }
}

/// A walk from `start` to `goal`.
pub open spec fn connects(
    path: Seq<GridPos>,
    start: GridPos,
    goal: GridPos,
    blocked: Set<Cell>,
    w: int,
    h: int,
    diagonal: bool,
) -> bool {
    &&& is_walk(path, blocked, w, h, diagonal)
    &&& path[0] == start
    &&& path.last() == goal
}

/// Number of cells of a `w` by `h` grid.
pub open spec fn cell_count(w: int, h: int) -> int {
    if w > 0 && h > 0 {
        w * h
    } else {
        0
    }
}

/// The most a single step costs.
pub open spec fn max_step(diagonal: bool) -> int {
    if diagonal {
        14
    } else {
        1
    }
}

/// The grid is small enough for the cost of any walk without repeated cells
/// to fit the 32-bit cost field.
pub open spec fn within_budget(w: int, h: int, diagonal: bool) -> bool {
    (cell_count(w, h) + 1) * max_step(diagonal) <= i32::MAX
}

/// What a planner call returns: a cheapest walk when one exists, and the
/// empty path with cost -1 when none does.
pub open spec fn plan_outcome(
    r: PathResult,
    start: GridPos,
    goal: GridPos,
    blocked: Set<Cell>,
    w: int,
    h: int,
    diagonal: bool,
) -> bool {
    &&& r.found <==> exists|q: Seq<GridPos>| connects(q, start, goal, blocked, w, h, diagonal)
    &&& r.found ==> {
        &&& connects(r.path@, start, goal, blocked, w, h, diagonal)
        &&& r.total_cost == walk_cost(r.path@, diagonal)
        &&& forall|q: Seq<GridPos>| #[trigger]
            connects(q, start, goal, blocked, w, h, diagonal) ==> r.total_cost <= walk_cost(
                q,
                diagonal,
            )
    }
    &&& !r.found ==> r.path@.len() == 0 && r.total_cost == -1
}

/// Lower bound the planner uses for the cost from `a` to `goal`: Manhattan
/// distance in four-connected mode, ten times Chebyshev distance otherwise.
pub open spec fn estimate(a: Cell, goal: Cell, diagonal: bool) -> int {
    let dx = gap(a.0 as int, goal.0 as int);
    let dy = gap(a.1 as int, goal.1 as int);
    if !diagonal {
        dx + dy
    } else if dx >= dy {
        10 * dx
    } else {
        10 * dy
    }
}

// ---------------------------------------------------------------------------
// Walks
// ---------------------------------------------------------------------------
/// The cost of a walk is the cost of its first step plus the cost of the
/// rest.
pub proof fn lemma_walk_cost_prepend(a: GridPos, p: Seq<GridPos>, diagonal: bool)
    requires
        p.len() >= 1,
    ensures
        walk_cost(seq![a] + p, diagonal) == step_cost(a, p[0], diagonal) + walk_cost(p, diagonal),
    decreases p.len(),
{
    let full = seq![a] + p;
    if p.len() == 1 {
        assert(full.drop_last() =~= seq![a]);
        assert(walk_cost(full.drop_last(), diagonal) == 0);
    } else {
        assert(full.drop_last() =~= seq![a] + p.drop_last());
        lemma_walk_cost_prepend(a, p.drop_last(), diagonal);
        assert(full[full.len() - 2] == p[p.len() - 2]);
        assert(full.last() == p.last());
    }
}

/// In four-connected mode the cost of a walk is its number of steps.
pub proof fn lemma_unit_walk_cost(p: Seq<GridPos>)
    requires
        p.len() >= 1,
    ensures
        walk_cost(p, false) == p.len() - 1,
    decreases p.len(),
{
    if p.len() > 1 {
        lemma_unit_walk_cost(p.drop_last());
    }
}

/// No walk has a negative cost.
pub proof fn lemma_walk_cost_nonnegative(p: Seq<GridPos>, diagonal: bool)
    ensures
        walk_cost(p, diagonal) >= 0,
    decreases p.len(),
{
    if p.len() > 1 {
        lemma_walk_cost_nonnegative(p.drop_last(), diagonal);
    }
}

proof fn lemma_prefix_cost(q: Seq<GridPos>, j: int, diagonal: bool)
    requires
        1 <= j < q.len(),
    ensures
        walk_cost(q.take(j + 1), diagonal) == walk_cost(q.take(j), diagonal) + step_cost(
            q[j - 1],
            q[j],
            diagonal,
        ),
{
    assert(q.take(j + 1).drop_last() =~= q.take(j));
}

/// The estimate never exceeds what is left of a walk that ends at the goal.
proof fn lemma_estimate_admissible(
    q: Seq<GridPos>,
    i: int,
    blocked: Set<Cell>,
    w: int,
    h: int,
    diagonal: bool,
)
    requires
        is_walk(q, blocked, w, h, diagonal),
        0 <= i < q.len(),
    ensures
        estimate(cell_of(q[i]), cell_of(q.last()), diagonal) + walk_cost(q.take(i + 1), diagonal)
            <= walk_cost(q, diagonal),
    decreases q.len() - i,
{
    if i == q.len() - 1 {
        assert(q.take(i + 1) =~= q);
    } else {
        lemma_estimate_admissible(q, i + 1, blocked, w, h, diagonal);
        lemma_prefix_cost(q, i + 1, diagonal);
        assert(is_step(q[i], q[i + 1], blocked, w, h, diagonal));
    }
}

// ---------------------------------------------------------------------------
// Sums over the cells of the grid
// ---------------------------------------------------------------------------
/// Weight of the cell `(x, y)`: with `unit`, 1 if it has a score and 0 if
/// not; otherwise its score, or `cap` if it has none.
spec fn weight(g: Map<Cell, i32>, cap: int, unit: bool, x: int, y: int) -> int {
    let c = (x as i32, y as i32);
    if g.dom().contains(c) {
        if unit {
            1
        } else {
            g[c] as int
        }
    } else {
        if unit {
            0
        } else {
            cap
        }
    }
}

spec fn row_sum(g: Map<Cell, i32>, cap: int, unit: bool, y: int, n: int) -> int
    decreases n,
{
    if n <= 0 {
        0
    } else {
        row_sum(g, cap, unit, y, n - 1) + weight(g, cap, unit, n - 1, y)
    }
}

spec fn grid_sum(g: Map<Cell, i32>, cap: int, unit: bool, w: int, n: int) -> int
    decreases n,
{
    if n <= 0 {
        0
    } else {
        grid_sum(g, cap, unit, w, n - 1) + row_sum(g, cap, unit, n - 1, w)
    }
}

/// `g2` is `g1` with the score of `c` set to `v`.
spec fn sets_score(g1: Map<Cell, i32>, g2: Map<Cell, i32>, c: Cell, v: i32) -> bool {
    g2 == g1.insert(c, v)
}

proof fn lemma_row_change(
    g1: Map<Cell, i32>,
    g2: Map<Cell, i32>,
    c: Cell,
    v: i32,
    cap: int,
    unit: bool,
    y: int,
    n: int,
)
    requires
        sets_score(g1, g2, c, v),
        0 <= y <= i32::MAX,
        n <= i32::MAX,
    ensures
        row_sum(g2, cap, unit, y, n) == row_sum(g1, cap, unit, y, n) + (if c.1 == y && 0 <= c.0
            < n {
            weight(g2, cap, unit, c.0 as int, y) - weight(g1, cap, unit, c.0 as int, y)
        } else {
            0
        }),
    decreases n,
{
    if n > 0 {
        lemma_row_change(g1, g2, c, v, cap, unit, y, n - 1);
    }
}

proof fn lemma_grid_change(
    g1: Map<Cell, i32>,
    g2: Map<Cell, i32>,
    c: Cell,
    v: i32,
    cap: int,
    unit: bool,
    w: int,
    n: int,
)
    requires
        sets_score(g1, g2, c, v),
        w <= i32::MAX,
        n <= i32::MAX,
    ensures
        grid_sum(g2, cap, unit, w, n) == grid_sum(g1, cap, unit, w, n) + (if cell_in_grid(c, w, n) {
            weight(g2, cap, unit, c.0 as int, c.1 as int) - weight(
                g1,
                cap,
                unit,
                c.0 as int,
                c.1 as int,
            )
        } else {
            0
        }),
    decreases n,
{
    if n > 0 {
        lemma_grid_change(g1, g2, c, v, cap, unit, w, n - 1);
        lemma_row_change(g1, g2, c, v, cap, unit, n - 1, w);
    }
}

proof fn lemma_row_bounds(g: Map<Cell, i32>, cap: int, unit: bool, y: int, n: int)
    requires
        cap >= 0,
        forall|k: Cell| #[trigger] g.dom().contains(k) ==> g[k] >= 0,
    ensures
        row_sum(g, cap, unit, y, n) >= 0,
        unit && n >= 0 ==> row_sum(g, cap, unit, y, n) <= n,
    decreases n,
{
    if n > 0 {
        lemma_row_bounds(g, cap, unit, y, n - 1);
    }
}

proof fn lemma_grid_bounds(g: Map<Cell, i32>, cap: int, unit: bool, w: int, n: int)
    requires
        cap >= 0,
        forall|k: Cell| #[trigger] g.dom().contains(k) ==> g[k] >= 0,
    ensures
        grid_sum(g, cap, unit, w, n) >= 0,
        unit ==> grid_sum(g, cap, unit, w, n) <= cell_count(w, n),
    decreases n,
{
    if n > 0 {
        lemma_grid_bounds(g, cap, unit, w, n - 1);
        lemma_row_bounds(g, cap, unit, n - 1, w);
        if unit {
            if w > 0 {
                assert(w * n == w * (n - 1) + w) by (nonlinear_arith);
                assert(w * (n - 1) >= 0) by (nonlinear_arith)
                    requires
                        w > 0,
                        n > 0,
                ;
            } else {
                assert(row_sum(g, cap, unit, n - 1, w) == 0);
            }
        }
    }
}


// ---------------------------------------------------------------------------
// The search
// ---------------------------------------------------------------------------
/// The score of `p` is no worse than reaching it from `k` in one step.
spec fn relaxed(g: Map<Cell, i32>, k: Cell, p: Cell, diagonal: bool) -> bool {
    g.dom().contains(p) && g[p] <= g[k] + cell_step_cost(k, p, diagonal)
}

/// Number of grid cells that have a score.
spec fn seen(g: Map<Cell, i32>, w: int, h: int) -> int {
    grid_sum(g, 0, true, w, h)
}

/// Value standing for the score of a cell that has none; above every score.
spec fn score_cap(w: int, h: int, diagonal: bool) -> int {
    (cell_count(w, h) + 1) * max_step(diagonal) + 1
}

/// Sum of the scores over the grid, cells without a score counting as the cap.
spec fn slack(g: Map<Cell, i32>, w: int, h: int, diagonal: bool) -> int {
    grid_sum(g, score_cap(w, h, diagonal), false, w, h)
}

/// State of a search. `g` holds the best known cost from the start,
/// `came` the cell each scored cell was reached from, `open` the frontier.
/// A scored cell outside the frontier is closed. `cur`, if any, is the cell
/// being expanded, and `done` the directions already tried from it.
spec fn search_inv(
    g: Map<Cell, i32>,
    came: Map<Cell, Cell>,
    open: Map<Cell, i64>,
    start: Cell,
    goal: Cell,
    blocked: Set<Cell>,
    w: int,
    h: int,
    diagonal: bool,
    cur: Option<Cell>,
    done: Set<(int, int)>,
) -> bool {
    &&& g.dom().contains(start)
    &&& g[start] == 0
    &&& !came.dom().contains(start)
    &&& open.dom().finite()
    &&& forall|k: Cell| #[trigger]
        g.dom().contains(k) ==> 0 <= g[k] <= max_step(diagonal) * seen(g, w, h) && (k != start
            ==> came.dom().contains(k))
    &&& forall|k: Cell| #[trigger]
        came.dom().contains(k) ==> g.dom().contains(k) && g.dom().contains(came[k]) && cell_step(
            came[k],
            k,
            blocked,
            w,
            h,
            diagonal,
        ) && g[came[k]] + cell_step_cost(came[k], k, diagonal) <= g[k]
    &&& forall|k: Cell| #[trigger]
        open.dom().contains(k) ==> g.dom().contains(k) && open[k] == g[k] + estimate(
            k,
            goal,
            diagonal,
        )
    &&& forall|k: Cell, p: Cell|
        g.dom().contains(k) && !open.dom().contains(k) && cur != Some(k) && #[trigger] cell_step(
            k,
            p,
            blocked,
            w,
            h,
            diagonal,
        ) ==> relaxed(g, k, p, diagonal)
    &&& (g.dom().contains(goal) ==> open.dom().contains(goal))
    &&& cur matches Some(c) ==> {
        &&& g.dom().contains(c)
        &&& !open.dom().contains(c)
        &&& forall|p: Cell|
            done.contains((p.0 - c.0, p.1 - c.1)) && #[trigger] cell_step(
                c,
                p,
                blocked,
                w,
                h,
                diagonal,
            ) ==> relaxed(g, c, p, diagonal)
    }
}

/// Along any walk from the start, either some cell up to index `j` is on the
/// frontier with a score no worse than the walk's cost so far, or the cell at
/// `j` itself has such a score.
proof fn lemma_reach(
    g: Map<Cell, i32>,
    came: Map<Cell, Cell>,
    open: Map<Cell, i64>,
    start: GridPos,
    goal: Cell,
    blocked: Set<Cell>,
    w: int,
    h: int,
    diagonal: bool,
    q: Seq<GridPos>,
    j: int,
) -> (i: int)
    requires
        search_inv(
            g,
            came,
            open,
            cell_of(start),
            goal,
            blocked,
            w,
            h,
            diagonal,
            None,
            Set::empty(),
        ),
        is_walk(q, blocked, w, h, diagonal),
        q[0] == start,
        0 <= j < q.len(),
    ensures
        0 <= i <= j,
        g.dom().contains(cell_of(q[i])),
        g[cell_of(q[i])] <= walk_cost(q.take(i + 1), diagonal),
        open.dom().contains(cell_of(q[i])) || i == j,
    decreases j,
{
    if j == 0 {
        assert(q.take(1).len() == 1);
        0
    } else {
        let i = lemma_reach(g, came, open, start, goal, blocked, w, h, diagonal, q, j - 1);
        if open.dom().contains(cell_of(q[i])) {
            i
        } else {
            lemma_prefix_cost(q, j, diagonal);
            assert(is_step(q[j - 1], q[j], blocked, w, h, diagonal));
            assert(cell_step(cell_of(q[j - 1]), cell_of(q[j]), blocked, w, h, diagonal));
            assert(relaxed(g, cell_of(q[j - 1]), cell_of(q[j]), diagonal));
            j
        }
    }
}

fn heuristic(a: Cell, goal: Cell, diagonal: bool) -> (e: i64)
    ensures
        e == estimate(a, goal, diagonal),
        0 <= e <= 0xa_0000_0000,
{
    let dx: i64 = gap_wide(a.0, goal.0);
    let dy: i64 = gap_wide(a.1, goal.1);
    if !diagonal {
        dx + dy
    } else if dx >= dy {
        10 * dx
    } else {
        10 * dy
    }
}

/// Tries the step from `cur` in direction `(dx, dy)`: if it is allowed and
/// improves on the score of the cell it leads to, records the new score and
/// origin and queues the cell.
fn relax(
    cur: Cell,
    cur_g: i32,
    dx: i32,
    dy: i32,
    goal: Cell,
    obstacles: &FxHashSet<Cell>,
    w: i32,
    h: i32,
    diagonal: bool,
    g: &mut FxHashMap<Cell, i32>,
    came: &mut FxHashMap<Cell, Cell>,
    open: &mut PriorityQueue<Cell, Reverse<i64>>,
    Ghost(start): Ghost<Cell>,
    Ghost(done): Ghost<Set<(int, int)>>,
)
    requires
        search_inv(
            old(g)@,
            old(came)@,
            frontier_entries(*old(open)),
            start,
            goal,
            obstacles@,
            w as int,
            h as int,
            diagonal,
            Some(cur),
            done,
        ),
        old(g)@[cur] == cur_g,
        cur != goal,
        -1 <= dx <= 1,
        -1 <= dy <= 1,
        dx != 0 || dy != 0,
        dx != 0 && dy != 0 ==> diagonal,
        within_budget(w as int, h as int, diagonal),
    ensures
        search_inv(
            final(g)@,
            final(came)@,
            frontier_entries(*final(open)),
            start,
            goal,
            obstacles@,
            w as int,
            h as int,
            diagonal,
            Some(cur),
            done.insert((dx as int, dy as int)),
        ),
        final(g)@[cur] == cur_g,
        2 * slack(final(g)@, w as int, h as int, diagonal) + frontier_entries(
            *final(open),
        ).dom().len() <= 2 * slack(old(g)@, w as int, h as int, diagonal) + frontier_entries(
            *old(open),
        ).dom().len(),
{
    let ghost g0 = g@;
    let ghost came0 = came@;
    let ghost open0 = frontier_entries(*open);
    let ghost wi = w as int;
    let ghost hi = h as int;
    let ghost blocked = obstacles@;
    let nx: i64 = cur.0 as i64 + dx as i64;
    let ny: i64 = cur.1 as i64 + dy as i64;
    if nx < 0 || nx >= w as i64 || ny < 0 || ny >= h as i64 {
        return ;
    }
    let n: Cell = (nx as i32, ny as i32);
    if cell_set_contains(obstacles, n) {
        return ;
    }
    if dx != 0 && dy != 0 {
        if cell_set_contains(obstacles, (n.0, cur.1)) || cell_set_contains(obstacles, (cur.0, n.1)) {
            return ;
        }
    }
    assert(cell_step(cur, n, blocked, wi, hi, diagonal));
    let cost: i32 = if !diagonal {
        1
    } else if dx != 0 && dy != 0 {
        14
    } else {
        10
    };
    assert(cost == cell_step_cost(cur, n, diagonal));
    proof {
        lemma_grid_bounds(g0, 0, true, wi, hi);
        assert(cur_g <= max_step(diagonal) * seen(g0, wi, hi));
        assert(max_step(diagonal) * seen(g0, wi, hi) + max_step(diagonal) < score_cap(
            wi,
            hi,
            diagonal,
        )) by {
            let sn = seen(g0, wi, hi);
            let cc = cell_count(wi, hi);
            assert(sn <= cc);
            let ms = max_step(diagonal);
            assert(ms * sn + ms <= (cc + 1) * ms) by (nonlinear_arith)
                requires
                    sn <= cc,
                    ms >= 1,
            ;
        }
    }
    let tentative: i32 = cur_g + cost;
    let better = match cell_map_get(g, n) {
        Some(known) => tentative < known,
        None => true,
    };
    if better {
        cell_map_insert(came, n, cur);
        cell_map_insert(g, n, tentative);
        let f: i64 = tentative as i64 + heuristic(n, goal, diagonal);
        frontier_push(open, n, f);
        proof {
            let g1 = g@;
            let came1 = came@;
            let open1 = frontier_entries(*open);
            let cap = score_cap(wi, hi, diagonal);
            assert(sets_score(g0, g1, n, tentative));
            lemma_grid_change(g0, g1, n, tentative, 0, true, wi, hi);
            lemma_grid_change(g0, g1, n, tentative, cap, false, wi, hi);
            assert(n != start);
            assert(n != cur);
            assert(seen(g1, wi, hi) >= seen(g0, wi, hi));
            assert(!g0.dom().contains(n) ==> seen(g1, wi, hi) == seen(g0, wi, hi) + 1);
            assert(slack(g1, wi, hi, diagonal) <= slack(g0, wi, hi, diagonal) - 1);
            assert(open1.dom() =~= open0.dom().insert(n));
            assert forall|k: Cell| #[trigger] g1.dom().contains(k) implies 0 <= g1[k] <= max_step(
                diagonal,
            ) * seen(g1, wi, hi) && (k != start ==> came1.dom().contains(k)) by {
                if diagonal {
                } else {
                }
                if k != n {
                    assert(g0.dom().contains(k));
                }
            }
            assert forall|k: Cell| #[trigger] came1.dom().contains(k) implies g1.dom().contains(k)
                && g1.dom().contains(came1[k]) && cell_step(
                came1[k],
                k,
                blocked,
                wi,
                hi,
                diagonal,
            ) && g1[came1[k]] + cell_step_cost(came1[k], k, diagonal) <= g1[k] by {
                if k != n {
                    assert(came0.dom().contains(k));
                }
            }
            assert forall|k: Cell| #[trigger] open1.dom().contains(k) implies g1.dom().contains(k)
                && open1[k] == g1[k] + estimate(k, goal, diagonal) by {
                if k != n {
                    assert(open0.dom().contains(k));
                }
            }
            assert forall|k: Cell, p: Cell|
                g1.dom().contains(k) && !open1.dom().contains(k) && Some(cur) != Some(k)
                    && #[trigger] cell_step(k, p, blocked, wi, hi, diagonal) implies relaxed(
                g1,
                k,
                p,
                diagonal,
            ) by {
                assert(k != n);
                assert(g0.dom().contains(k) && !open0.dom().contains(k));
                assert(relaxed(g0, k, p, diagonal));
            }
            assert forall|p: Cell|
                done.insert((dx as int, dy as int)).contains((p.0 - cur.0, p.1 - cur.1))
                    && #[trigger] cell_step(cur, p, blocked, wi, hi, diagonal) implies relaxed(
                g1,
                cur,
                p,
                diagonal,
            ) by {
                if p != n {
                    assert(done.contains((p.0 - cur.0, p.1 - cur.1)));
                    assert(relaxed(g0, cur, p, diagonal));
                }
            }
        }
    } else {
        proof {
            assert forall|p: Cell|
                done.insert((dx as int, dy as int)).contains((p.0 - cur.0, p.1 - cur.1))
                    && #[trigger] cell_step(cur, p, blocked, wi, hi, diagonal) implies relaxed(
                g0,
                cur,
                p,
                diagonal,
            ) by {
                if p != n {
                    assert(done.contains((p.0 - cur.0, p.1 - cur.1)));
                }
            }
        }
    }
}


fn reverse_path(v: &Vec<GridPos>) -> (r: Vec<GridPos>)
    ensures
        r@.len() == v@.len(),
        forall|i: int| 0 <= i < r@.len() ==> r@[i] == v@[v@.len() - 1 - i],
{
    let mut r: Vec<GridPos> = Vec::new();
    let mut i: usize = v.len();
    while i > 0
        invariant
            i <= v@.len(),
            r@.len() == v@.len() - i,
            forall|j: int| 0 <= j < r@.len() ==> r@[j] == v@[v@.len() - 1 - j],
        decreases i,
    {
        i = i - 1;
        r.push(v[i]);
    }
    r
}

/// Follows the recorded origins back from the goal and returns the walk in
/// forward order.
fn reconstruct(
    goal: Cell,
    came: &FxHashMap<Cell, Cell>,
    g: &FxHashMap<Cell, i32>,
    Ghost(open): Ghost<Map<Cell, i64>>,
    Ghost(start): Ghost<Cell>,
    Ghost(blocked): Ghost<Set<Cell>>,
    Ghost(w): Ghost<int>,
    Ghost(h): Ghost<int>,
    Ghost(diagonal): Ghost<bool>,
) -> (path: Vec<GridPos>)
    requires
        search_inv(g@, came@, open, start, goal, blocked, w, h, diagonal, None, Set::empty()),
        g@.dom().contains(goal),
    ensures
        is_walk(path@, blocked, w, h, diagonal),
        cell_of(path@[0]) == start,
        cell_of(path@.last()) == goal,
        walk_cost(path@, diagonal) <= g@[goal],
{
    let mut rev: Vec<GridPos> = Vec::new();
    let last = GridPos { x: goal.0, y: goal.1 };
    rev.push(last);
    let mut node: Cell = goal;
    let ghost mut fwd: Seq<GridPos> = seq![last];
    loop
        invariant
            search_inv(g@, came@, open, start, goal, blocked, w, h, diagonal, None, Set::empty()),
            g@.dom().contains(node),
            g@.dom().contains(goal),
            fwd.len() >= 1,
            rev@.len() == fwd.len(),
            forall|i: int| 0 <= i < fwd.len() ==> rev@[i] == fwd[fwd.len() - 1 - i],
            cell_of(fwd[0]) == node,
            cell_of(fwd.last()) == goal,
            is_walk(fwd, blocked, w, h, diagonal),
            walk_cost(fwd, diagonal) + g@[node] <= g@[goal],
        ensures
            !came@.dom().contains(node),
        decreases g@[node],
    {
        match cell_map_get(came, node) {
            None => {
                break ;
            },
            Some(prev) => {
                let p = GridPos { x: prev.0, y: prev.1 };
                proof {
                    let longer = seq![p] + fwd;
                    lemma_walk_cost_prepend(p, fwd, diagonal);
                    assert(cell_of(p) == prev);
                    assert(came@.dom().contains(node));
                    assert(cell_step(prev, node, blocked, w, h, diagonal));
                    assert forall|i: int| 0 <= i < longer.len() - 1 implies is_step(
                        #[trigger] longer[i],
                        longer[i + 1],
                        blocked,
                        w,
                        h,
                        diagonal,
                    ) by {
                        if i > 0 {
                            assert(longer[i] == fwd[i - 1]);
                            assert(longer[i + 1] == fwd[i]);
                            assert(is_step(fwd[i - 1], fwd[i], blocked, w, h, diagonal));
                        }
                    }
                    assert(longer.last() == fwd.last());
                    fwd = longer;
                }
                rev.push(p);
                node = prev;
            },
        }
    }
    let path = reverse_path(&rev);
    proof {
        assert(path@ =~= fwd);
    }
    path
}

/// A* from `start` to `goal`, four- or eight-connected.
fn search(
    start: GridPos,
    goal: GridPos,
    obstacles: &FxHashSet<Cell>,
    w: i32,
    h: i32,
    diagonal: bool,
) -> (r: PathResult)
    requires
        within_budget(w as int, h as int, diagonal),
    ensures
        plan_outcome(r, start, goal, obstacles@, w as int, h as int, diagonal),
        start == goal ==> r.found && r.path@ == seq![start] && r.total_cost == 0,
        start != goal && obstacles@.contains(cell_of(goal)) ==> !r.found,
{
    let ghost wi = w as int;
    let ghost hi = h as int;
    let ghost blocked = obstacles@;
    let s: Cell = (start.x, start.y);
    let t: Cell = (goal.x, goal.y);
    if start.x == goal.x && start.y == goal.y {
        let mut path: Vec<GridPos> = Vec::new();
        path.push(start);
        proof {
            assert(path@ =~= seq![start]);
            assert(connects(path@, start, goal, blocked, wi, hi, diagonal));
            assert forall|q: Seq<GridPos>| #[trigger]
                connects(q, start, goal, blocked, wi, hi, diagonal) implies 0 <= walk_cost(
                q,
                diagonal,
            ) by {
                lemma_walk_cost_nonnegative(q, diagonal);
            }
        }
        return PathResult { path, total_cost: 0, found: true };
    }
    if cell_set_contains(obstacles, t) {
        proof {
            assert forall|q: Seq<GridPos>| !connects(q, start, goal, blocked, wi, hi, diagonal) by {
                if connects(q, start, goal, blocked, wi, hi, diagonal) {
                    assert(q.len() >= 2);
                    assert(is_step(q[q.len() - 2], q[q.len() - 1], blocked, wi, hi, diagonal));
                }
            }
        }
        return PathResult { path: Vec::new(), total_cost: -1, found: false };
    }
    let mut open = frontier_new();
    let mut came: FxHashMap<Cell, Cell> = FxHashMap::default();
    let mut g: FxHashMap<Cell, i32> = FxHashMap::default();
    cell_map_insert(&mut g, s, 0);
    let first = heuristic(s, t, diagonal);
    frontier_push(&mut open, s, first);
    proof {
        lemma_grid_bounds(g@, 0, true, wi, hi);
        assert(frontier_entries(open).dom() =~= Set::<Cell>::empty().insert(s));
        assert(max_step(diagonal) * seen(g@, wi, hi) >= 0) by (nonlinear_arith)
            requires
                max_step(diagonal) >= 1,
                seen(g@, wi, hi) >= 0,
        ;
    }
    loop
        invariant
            search_inv(
                g@,
                came@,
                frontier_entries(open),
                s,
                t,
                blocked,
                wi,
                hi,
                diagonal,
                None,
                Set::empty(),
            ),
            within_budget(wi, hi, diagonal),
            s == cell_of(start),
            t == cell_of(goal),
            s != t,
            blocked == obstacles@,
            wi == w as int,
            hi == h as int,
        decreases 2 * slack(g@, wi, hi, diagonal) + frontier_entries(open).dom().len(),
    {
        let ghost open0 = frontier_entries(open);
        proof {
            lemma_grid_bounds(g@, score_cap(wi, hi, diagonal), false, wi, hi);
        }
        match frontier_pop(&mut open) {
            None => {
                proof {
                    assert forall|q: Seq<GridPos>|
                        !connects(q, start, goal, blocked, wi, hi, diagonal) by {
                        if connects(q, start, goal, blocked, wi, hi, diagonal) {
                            let i = lemma_reach(
                                g@,
                                came@,
                                open0,
                                start,
                                t,
                                blocked,
                                wi,
                                hi,
                                diagonal,
                                q,
                                q.len() - 1,
                            );
                            assert(open0.dom().contains(cell_of(q[i])));
                        }
                    }
                }
                return PathResult { path: Vec::new(), total_cost: -1, found: false };
            },
            Some((cur, f)) => {
                if cur.0 == t.0 && cur.1 == t.1 {
                    let path = reconstruct(
                        t,
                        &came,
                        &g,
                        Ghost(open0),
                        Ghost(s),
                        Ghost(blocked),
                        Ghost(wi),
                        Ghost(hi),
                        Ghost(diagonal),
                    );
                    let total = match cell_map_get(&g, t) {
                        Some(v) => v,
                        None => 0,
                    };
                    proof {
                        assert(cur == t);
                        assert(f == total + estimate(t, t, diagonal));
                        assert(connects(path@, start, goal, blocked, wi, hi, diagonal));
                        assert forall|q: Seq<GridPos>| #[trigger]
                            connects(q, start, goal, blocked, wi, hi, diagonal) implies total
                            <= walk_cost(q, diagonal) by {
                            let i = lemma_reach(
                                g@,
                                came@,
                                open0,
                                start,
                                t,
                                blocked,
                                wi,
                                hi,
                                diagonal,
                                q,
                                q.len() - 1,
                            );
                            assert(open0.dom().contains(cell_of(q[i])));
                            lemma_estimate_admissible(q, i, blocked, wi, hi, diagonal);
                        }
                    }
                    return PathResult { path, total_cost: total, found: true };
                }
                let cur_g = match cell_map_get(&g, cur) {
                    Some(v) => v,
                    None => i32::MAX,
                };
                let ghost mut done: Set<(int, int)> = Set::empty();
                proof {
                    assert(cur != t);
                    assert(frontier_entries(open).dom() =~= open0.dom().remove(cur));
                    assert(frontier_entries(open).dom().len() == open0.dom().len() - 1);
                }
                relax(cur, cur_g, 0, 1, t, obstacles, w, h, diagonal, &mut g, &mut came, &mut open, Ghost(s), Ghost(done));
                proof {
                    done = done.insert((0int, 1int));
                }
                relax(cur, cur_g, 0, -1, t, obstacles, w, h, diagonal, &mut g, &mut came, &mut open, Ghost(s), Ghost(done));
                proof {
                    done = done.insert((0int, -1int));
                }
                relax(cur, cur_g, 1, 0, t, obstacles, w, h, diagonal, &mut g, &mut came, &mut open, Ghost(s), Ghost(done));
                proof {
                    done = done.insert((1int, 0int));
                }
                relax(cur, cur_g, -1, 0, t, obstacles, w, h, diagonal, &mut g, &mut came, &mut open, Ghost(s), Ghost(done));
                proof {
                    done = done.insert((-1int, 0int));
                }
                if diagonal {
                    relax(cur, cur_g, 1, 1, t, obstacles, w, h, diagonal, &mut g, &mut came, &mut open, Ghost(s), Ghost(done));
                    proof {
                        done = done.insert((1int, 1int));
                    }
                    relax(cur, cur_g, 1, -1, t, obstacles, w, h, diagonal, &mut g, &mut came, &mut open, Ghost(s), Ghost(done));
                    proof {
                        done = done.insert((1int, -1int));
                    }
                    relax(cur, cur_g, -1, 1, t, obstacles, w, h, diagonal, &mut g, &mut came, &mut open, Ghost(s), Ghost(done));
                    proof {
                        done = done.insert((-1int, 1int));
                    }
                    relax(cur, cur_g, -1, -1, t, obstacles, w, h, diagonal, &mut g, &mut came, &mut open, Ghost(s), Ghost(done));
                    proof {
                        done = done.insert((-1int, -1int));
                    }
                }
                proof {
                    let g1 = g@;
                    let open1 = frontier_entries(open);
                    lemma_grid_bounds(g1, score_cap(wi, hi, diagonal), false, wi, hi);
                    assert forall|k: Cell, p: Cell|
                        g1.dom().contains(k) && !open1.dom().contains(k) && #[trigger] cell_step(
                            k,
                            p,
                            blocked,
                            wi,
                            hi,
                            diagonal,
                        ) implies relaxed(g1, k, p, diagonal) by {
                        if k == cur {
                            assert(done.contains((p.0 - cur.0, p.1 - cur.1)));
                        }
                    }
                }
            },
        }
    }
}

impl PathfindingEngine {
    /// Cheapest four-connected walk from `start` to `goal`, each step costing
    /// 1. When the two are equal the path is `[start]` with cost 0; when no
    /// walk exists (in particular when the goal is blocked) the path is empty,
    /// the cost -1 and `found` false.
    pub fn find_path(
        start: GridPos,
        goal: GridPos,
        obstacles: &FxHashSet<Cell>,
        grid_width: i32,
        grid_height: i32,
    ) -> (r: PathResult)
        requires
            within_budget(grid_width as int, grid_height as int, false),
        ensures
            plan_outcome(r, start, goal, obstacles@, grid_width as int, grid_height as int, false),
            start == goal ==> r.found && r.path@ == seq![start] && r.total_cost == 0,
            start != goal && obstacles@.contains(cell_of(goal)) ==> !r.found,
            r.found ==> r.total_cost == r.path@.len() - 1,
    {
        let r = search(start, goal, obstacles, grid_width, grid_height, false);
        proof {
            if r.found {
                lemma_unit_walk_cost(r.path@);
            }
        }
        r
    }

    /// Cheapest eight-connected walk from `start` to `goal`: a straight step
    /// costs 10, a diagonal one 14, and no diagonal step passes a blocked
    /// cell on either side. Otherwise as `find_path`.
    pub fn find_path_8dir(
        start: GridPos,
        goal: GridPos,
        obstacles: &FxHashSet<Cell>,
        grid_width: i32,
        grid_height: i32,
    ) -> (r: PathResult)
        requires
            within_budget(grid_width as int, grid_height as int, true),
        ensures
            plan_outcome(r, start, goal, obstacles@, grid_width as int, grid_height as int, true),
            start == goal ==> r.found && r.path@ == seq![start] && r.total_cost == 0,
            start != goal && obstacles@.contains(cell_of(goal)) ==> !r.found,
    {
        search(start, goal, obstacles, grid_width, grid_height, true)
    }
}


// ---------------------------------------------------------------------------
// The nearest safe cell
// ---------------------------------------------------------------------------
/// The position a cell stands for.
pub open spec fn pos_of(c: Cell) -> GridPos {
    GridPos { x: c.0, y: c.1 }
}

/// A cell that is not blocked and at least `min_distance` away from every
/// enemy.
pub open spec fn refuge(c: Cell, enemies: Seq<GridPos>, blocked: Set<Cell>, min_distance: int) -> bool {
    &&& !blocked.contains(c)
    &&& forall|i: int|
        0 <= i < enemies.len() ==> manhattan(pos_of(c), #[trigger] enemies[i]) >= min_distance
}

/// Some four-connected walk of at most `n` steps leads from `start` to `c`.
pub open spec fn within(start: Cell, c: Cell, blocked: Set<Cell>, w: int, h: int, n: int) -> bool {
    exists|q: Seq<GridPos>|
        #[trigger] is_walk(q, blocked, w, h, false) && cell_of(q[0]) == start && cell_of(q.last())
            == c && q.len() <= n + 1
}

/// `c` is a refuge that can be reached from `start`, and no refuge can be
/// reached in fewer steps.
pub open spec fn nearest_refuge(
    start: Cell,
    c: Cell,
    enemies: Seq<GridPos>,
    blocked: Set<Cell>,
    w: int,
    h: int,
    min_distance: int,
) -> bool {
    &&& refuge(c, enemies, blocked, min_distance)
    &&& exists|n: int|
        #[trigger] within(start, c, blocked, w, h, n) && forall|o: Cell|
            refuge(o, enemies, blocked, min_distance) ==> !within(start, o, blocked, w, h, n - 1)
}

proof fn lemma_within_self(start: Cell, blocked: Set<Cell>, w: int, h: int)
    ensures
        within(start, start, blocked, w, h, 0),
        forall|c: Cell| #[trigger] within(start, c, blocked, w, h, 0) ==> c == start,
        forall|c: Cell| !#[trigger] within(start, c, blocked, w, h, -1),
{
    let q = seq![pos_of(start)];
    assert(is_walk(q, blocked, w, h, false));
    assert(cell_of(q[0]) == start && cell_of(q.last()) == start);
    assert forall|c: Cell| #[trigger] within(start, c, blocked, w, h, 0) implies c == start by {
        let q = choose|q: Seq<GridPos>|
            #[trigger] is_walk(q, blocked, w, h, false) && cell_of(q[0]) == start && cell_of(
                q.last(),
            ) == c && q.len() <= 1;
    }
    assert forall|c: Cell| !#[trigger] within(start, c, blocked, w, h, -1) by {
        if within(start, c, blocked, w, h, -1) {
            let q = choose|q: Seq<GridPos>|
                #[trigger] is_walk(q, blocked, w, h, false) && cell_of(q[0]) == start && cell_of(
                    q.last(),
                ) == c && q.len() <= 0;
        }
    }
}

proof fn lemma_within_more(start: Cell, c: Cell, blocked: Set<Cell>, w: int, h: int, m: int, n: int)
    requires
        within(start, c, blocked, w, h, m),
        m <= n,
    ensures
        within(start, c, blocked, w, h, n),
{
    let q = choose|q: Seq<GridPos>|
        #[trigger] is_walk(q, blocked, w, h, false) && cell_of(q[0]) == start && cell_of(q.last())
            == c && q.len() <= m + 1;
    assert(is_walk(q, blocked, w, h, false) && q.len() <= n + 1);
}

proof fn lemma_within_step(
    start: Cell,
    p: Cell,
    c: Cell,
    blocked: Set<Cell>,
    w: int,
    h: int,
    n: int,
)
    requires
        within(start, p, blocked, w, h, n),
        cell_step(p, c, blocked, w, h, false),
    ensures
        within(start, c, blocked, w, h, n + 1),
{
    let q = choose|q: Seq<GridPos>|
        #[trigger] is_walk(q, blocked, w, h, false) && cell_of(q[0]) == start && cell_of(q.last())
            == p && q.len() <= n + 1;
    let r = q.push(pos_of(c));
    assert forall|i: int| 0 <= i < r.len() - 1 implies is_step(
        #[trigger] r[i],
        r[i + 1],
        blocked,
        w,
        h,
        false,
    ) by {
        if i < q.len() - 1 {
            assert(r[i] == q[i] && r[i + 1] == q[i + 1]);
            assert(is_step(q[i], q[i + 1], blocked, w, h, false));
        } else {
            assert(r[i] == q.last());
        }
    }
    assert(is_walk(r, blocked, w, h, false));
    assert(cell_of(r[0]) == start && cell_of(r.last()) == c);
}

/// A cell that takes exactly `n + 1` steps is a step away from one that
/// takes exactly `n`.
proof fn lemma_within_before(start: Cell, c: Cell, blocked: Set<Cell>, w: int, h: int, n: int)
    -> (p: Cell)
    requires
        0 <= n,
        within(start, c, blocked, w, h, n + 1),
        !within(start, c, blocked, w, h, n),
    ensures
        within(start, p, blocked, w, h, n),
        !within(start, p, blocked, w, h, n - 1),
        cell_step(p, c, blocked, w, h, false),
{
    let q = choose|q: Seq<GridPos>|
        #[trigger] is_walk(q, blocked, w, h, false) && cell_of(q[0]) == start && cell_of(q.last())
            == c && q.len() <= n + 2;
    assert(q.len() == n + 2);
    let r = q.drop_last();
    let p = cell_of(r.last());
    assert forall|i: int| 0 <= i < r.len() - 1 implies is_step(
        #[trigger] r[i],
        r[i + 1],
        blocked,
        w,
        h,
        false,
    ) by {
        assert(r[i] == q[i] && r[i + 1] == q[i + 1]);
        assert(is_step(q[i], q[i + 1], blocked, w, h, false));
    }
    assert(is_walk(r, blocked, w, h, false));
    assert(cell_of(r[0]) == start);
    assert(within(start, p, blocked, w, h, n));
    assert(is_step(q[q.len() - 2], q[q.len() - 1], blocked, w, h, false));
    if within(start, p, blocked, w, h, n - 1) {
        lemma_within_step(start, p, c, blocked, w, h, n - 1);
    }
    p
}

/// If no cell takes exactly `d` steps, none takes more.
proof fn lemma_within_closed(
    start: Cell,
    c: Cell,
    blocked: Set<Cell>,
    w: int,
    h: int,
    d: int,
    n: int,
)
    requires
        0 <= d,
        forall|o: Cell|
            #[trigger] within(start, o, blocked, w, h, d) ==> within(start, o, blocked, w, h, d - 1),
        within(start, c, blocked, w, h, n),
    ensures
        within(start, c, blocked, w, h, d - 1),
    decreases n - d,
{
    if n <= d {
        lemma_within_more(start, c, blocked, w, h, n, d);
    } else if within(start, c, blocked, w, h, n - 1) {
        lemma_within_closed(start, c, blocked, w, h, d, n - 1);
    } else {
        let p = lemma_within_before(start, c, blocked, w, h, n - 1);
        lemma_within_closed(start, p, blocked, w, h, d, n - 1);
        lemma_within_step(start, p, c, blocked, w, h, d - 1);
    }
}

/// The cells of a set as a table of scores, so that they can be counted.
spec fn marks(v: Set<Cell>) -> Map<Cell, i32> {
    Map::new(|c: Cell| v.contains(c), |c: Cell| 0i32)
}

spec fn queued(queue: Seq<Cell>, c: Cell) -> bool {
    exists|k: int| 0 <= k < queue.len() && #[trigger] queue[k] == c
}

/// State of the search while the cells `d` steps away are looked at:
/// `queue` holds them, `next` the cells one step further found so far, and
/// `i` cells of the queue are done, the next one in the directions `done`.
spec fn level_inv(
    visited: Set<Cell>,
    queue: Seq<Cell>,
    next: Seq<Cell>,
    i: int,
    done: Set<(int, int)>,
    start: Cell,
    enemies: Seq<GridPos>,
    blocked: Set<Cell>,
    w: int,
    h: int,
    min_distance: int,
    d: int,
) -> bool {
    &&& 0 <= i <= queue.len()
    &&& 0 <= d
    &&& forall|c: Cell|
        #![trigger visited.contains(c)]
        #![trigger within(start, c, blocked, w, h, d)]
        visited.contains(c) <==> within(start, c, blocked, w, h, d) || queued(next, c)
    &&& forall|k: int|
        0 <= k < queue.len() ==> within(start, #[trigger] queue[k], blocked, w, h, d) && !within(
            start,
            queue[k],
            blocked,
            w,
            h,
            d - 1,
        )
    &&& forall|c: Cell|
        #[trigger] within(start, c, blocked, w, h, d) && !within(start, c, blocked, w, h, d - 1)
            ==> queued(queue, c)
    &&& forall|c: Cell|
        #[trigger] within(start, c, blocked, w, h, d - 1) ==> !refuge(
            c,
            enemies,
            blocked,
            min_distance,
        )
    &&& forall|k: int|
        0 <= k < next.len() ==> cell_in_grid(#[trigger] next[k], w, h) && within(
            start,
            next[k],
            blocked,
            w,
            h,
            d + 1,
        ) && !within(start, next[k], blocked, w, h, d)
    &&& forall|j: int| 0 <= j < i ==> !refuge(#[trigger] queue[j], enemies, blocked, min_distance)
    &&& forall|j: int, n: Cell|
        0 <= j < i && #[trigger] cell_step(queue[j], n, blocked, w, h, false) ==> visited.contains(
            n,
        )
    &&& forall|n: Cell|
        i < queue.len() && done.contains((n.0 - queue[i].0, n.1 - queue[i].1))
            && #[trigger] cell_step(queue[i], n, blocked, w, h, false) ==> visited.contains(n)
}

/// When a level is done, the cells found are the next level.
proof fn lemma_level_up(
    visited: Set<Cell>,
    queue: Seq<Cell>,
    next: Seq<Cell>,
    start: Cell,
    enemies: Seq<GridPos>,
    blocked: Set<Cell>,
    w: int,
    h: int,
    min_distance: int,
    d: int,
)
    requires
        level_inv(
            visited,
            queue,
            next,
            queue.len() as int,
            Set::empty(),
            start,
            enemies,
            blocked,
            w,
            h,
            min_distance,
            d,
        ),
    ensures
        level_inv(
            visited,
            next,
            Seq::empty(),
            0,
            Set::empty(),
            start,
            enemies,
            blocked,
            w,
            h,
            min_distance,
            d + 1,
        ),
{
    let none = Seq::<Cell>::empty();
    assert forall|c: Cell| #[trigger]
        within(start, c, blocked, w, h, d + 1) implies visited.contains(c) by {
        if !within(start, c, blocked, w, h, d) {
            let p = lemma_within_before(start, c, blocked, w, h, d);
            assert(queued(queue, p));
            let j = choose|j: int| 0 <= j < queue.len() && #[trigger] queue[j] == p;
            assert(cell_step(queue[j], c, blocked, w, h, false));
        }
    }
    assert forall|c: Cell|
        #![trigger visited.contains(c)]
        #![trigger within(start, c, blocked, w, h, d + 1)]
        visited.contains(c) <==> within(start, c, blocked, w, h, d + 1) || queued(none, c) by {
        if visited.contains(c) && !within(start, c, blocked, w, h, d) {
            assert(queued(next, c));
        }
        if within(start, c, blocked, w, h, d) {
            lemma_within_more(start, c, blocked, w, h, d, d + 1);
        }
    }
    assert forall|c: Cell|
        #[trigger] within(start, c, blocked, w, h, d + 1) && !within(
            start,
            c,
            blocked,
            w,
            h,
            d,
        ) implies queued(next, c) by {
        assert(visited.contains(c));
    }
    assert forall|c: Cell| #[trigger] within(start, c, blocked, w, h, d) implies !refuge(
        c,
        enemies,
        blocked,
        min_distance,
    ) by {
        if !within(start, c, blocked, w, h, d - 1) {
            assert(queued(queue, c));
        }
    }
}

/// Whether every enemy is at least `min_distance` away from `c`.
fn far_from_all(c: Cell, enemies: &[GridPos], min_distance: i32) -> (b: bool)
    ensures
        b == (forall|i: int|
            0 <= i < enemies@.len() ==> manhattan(pos_of(c), #[trigger] enemies@[i])
                >= min_distance),
{
    let here = GridPos { x: c.0, y: c.1 };
    let mut i: usize = 0;
    while i < enemies.len()
        invariant
            i <= enemies@.len(),
            here == pos_of(c),
            forall|k: int|
                0 <= k < i ==> manhattan(pos_of(c), #[trigger] enemies@[k]) >= min_distance,
        decreases enemies@.len() - i,
    {
        if here.manhattan_wide(&enemies[i]) < min_distance as i64 {
            return false;
        }
        i = i + 1;
    }
    true
}

/// Looks at the neighbour of `pos` in direction `(dx, dy)` and, if it is a
/// free cell of the grid not seen before, marks and queues it.
fn look(
    pos: Cell,
    dx: i32,
    dy: i32,
    obstacles: &FxHashSet<Cell>,
    w: i32,
    h: i32,
    visited: &mut FxHashSet<Cell>,
    next: &mut Vec<Cell>,
    Ghost(queue): Ghost<Seq<Cell>>,
    Ghost(i): Ghost<int>,
    Ghost(done): Ghost<Set<(int, int)>>,
    Ghost(start): Ghost<Cell>,
    Ghost(enemies): Ghost<Seq<GridPos>>,
    Ghost(min_distance): Ghost<int>,
    Ghost(d): Ghost<int>,
)
    requires
        level_inv(
            old(visited)@,
            queue,
            old(next)@,
            i,
            done,
            start,
            enemies,
            obstacles@,
            w as int,
            h as int,
            min_distance,
            d,
        ),
        i < queue.len(),
        queue[i] == pos,
        (dx == 0 && (dy == 1 || dy == -1)) || (dy == 0 && (dx == 1 || dx == -1)),
    ensures
        level_inv(
            final(visited)@,
            queue,
            final(next)@,
            i,
            done.insert((dx as int, dy as int)),
            start,
            enemies,
            obstacles@,
            w as int,
            h as int,
            min_distance,
            d,
        ),
        grid_sum(marks(final(visited)@), 0, true, w as int, h as int) == grid_sum(
            marks(old(visited)@),
            0,
            true,
            w as int,
            h as int,
        ) + (final(next)@.len() - old(next)@.len()),
        final(next)@.len() >= old(next)@.len(),
{
    let ghost blocked = obstacles@;
    let ghost wi = w as int;
    let ghost hi = h as int;
    let ghost v0 = visited@;
    let ghost n0 = next@;
    let nx: i64 = pos.0 as i64 + dx as i64;
    let ny: i64 = pos.1 as i64 + dy as i64;
    if nx < 0 || nx >= w as i64 || ny < 0 || ny >= h as i64 {
        return ;
    }
    let n: Cell = (nx as i32, ny as i32);
    if cell_set_contains(obstacles, n) || cell_set_contains(visited, n) {
        return ;
    }
    cell_set_insert(visited, n);
    next.push(n);
    proof {
        let v1 = visited@;
        let n1 = next@;
        assert(cell_step(pos, n, blocked, wi, hi, false));
        assert(marks(v1) =~= marks(v0).insert(n, 0i32));
        assert(sets_score(marks(v0), marks(v1), n, 0i32));
        lemma_grid_change(marks(v0), marks(v1), n, 0i32, 0, true, wi, hi);
        lemma_within_step(start, pos, n, blocked, wi, hi, d);
        assert(n1[n0.len() as int] == n);
        assert(queued(n1, n));
        assert forall|c: Cell| queued(n0, c) implies queued(n1, c) by {
            let k = choose|k: int| 0 <= k < n0.len() && #[trigger] n0[k] == c;
            assert(n1[k] == c);
        }
        assert forall|c: Cell| queued(n1, c) implies queued(n0, c) || c == n by {
            let k = choose|k: int| 0 <= k < n1.len() && #[trigger] n1[k] == c;
            if k < n0.len() {
                assert(n0[k] == c);
            }
        }
        assert forall|k: int| 0 <= k < n1.len() implies cell_in_grid(#[trigger] n1[k], wi, hi)
            && within(start, n1[k], blocked, wi, hi, d + 1) && !within(
            start,
            n1[k],
            blocked,
            wi,
            hi,
            d,
        ) by {
            if k < n0.len() {
                assert(n1[k] == n0[k]);
            }
        }
    }
}

impl PathfindingEngine {
    /// Searches outwards from `current`, one four-connected step at a time,
    /// for the nearest cell that is not blocked and at least `min_distance`
    /// away from every enemy. `current` itself is looked at first; the
    /// search then spreads over the free cells of the grid. Nothing is
    /// returned if no such cell can be reached.
    pub fn find_safe_position(
        current: GridPos,
        enemies: &[GridPos],
        obstacles: &FxHashSet<Cell>,
        grid_width: i32,
        grid_height: i32,
        min_distance: i32,
    ) -> (out: Option<GridPos>)
        ensures
            match out {
                Some(p) => nearest_refuge(
                    cell_of(current),
                    cell_of(p),
                    enemies@,
                    obstacles@,
                    grid_width as int,
                    grid_height as int,
                    min_distance as int,
                ),
                None => forall|c: Cell, n: int|
                    #[trigger] within(
                        cell_of(current),
                        c,
                        obstacles@,
                        grid_width as int,
                        grid_height as int,
                        n,
                    ) ==> !refuge(c, enemies@, obstacles@, min_distance as int),
            },
    {
        let ghost blocked = obstacles@;
        let ghost wi = grid_width as int;
        let ghost hi = grid_height as int;
        let ghost md = min_distance as int;
        let start: Cell = (current.x, current.y);
        let mut visited: FxHashSet<Cell> = FxHashSet::default();
        let mut queue: Vec<Cell> = Vec::new();
        queue.push(start);
        cell_set_insert(&mut visited, start);
        let ghost mut d: int = 0;
        proof {
            lemma_within_self(start, blocked, wi, hi);
            assert(queue@[0] == start);
            assert(queued(queue@, start));
        }
        while queue.len() > 0
            invariant
                level_inv(
                    visited@,
                    queue@,
                    Seq::empty(),
                    0,
                    Set::empty(),
                    start,
                    enemies@,
                    blocked,
                    wi,
                    hi,
                    md,
                    d,
                ),
                start == cell_of(current),
                blocked == obstacles@,
                wi == grid_width as int,
                hi == grid_height as int,
                md == min_distance as int,
            decreases
                    cell_count(wi, hi) - grid_sum(marks(visited@), 0, true, wi, hi),
                    queue@.len(),
        {
            let ghost seen0 = grid_sum(marks(visited@), 0, true, wi, hi);
            let mut next: Vec<Cell> = Vec::new();
            let mut i: usize = 0;
            while i < queue.len()
                invariant
                    level_inv(
                        visited@,
                        queue@,
                        next@,
                        i as int,
                        Set::empty(),
                        start,
                        enemies@,
                        blocked,
                        wi,
                        hi,
                        md,
                        d,
                    ),
                    start == cell_of(current),
                    blocked == obstacles@,
                    wi == grid_width as int,
                    hi == grid_height as int,
                    md == min_distance as int,
                    grid_sum(marks(visited@), 0, true, wi, hi) == seen0 + next@.len(),
                decreases queue@.len() - i,
            {
                let pos: Cell = queue[i];
                if far_from_all(pos, enemies, min_distance) && !cell_set_contains(obstacles, pos) {
                    proof {
                        assert(refuge(pos, enemies@, blocked, md));
                        assert(within(start, queue@[i as int], blocked, wi, hi, d));
                    }
                    return Some(GridPos { x: pos.0, y: pos.1 });
                }
                let ghost mut done: Set<(int, int)> = Set::empty();
                look(pos, 0, 1, obstacles, grid_width, grid_height, &mut visited, &mut next, Ghost(queue@), Ghost(i as int), Ghost(done), Ghost(start), Ghost(enemies@), Ghost(md), Ghost(d));
                proof {
                    done = done.insert((0int, 1int));
                }
                look(pos, 0, -1, obstacles, grid_width, grid_height, &mut visited, &mut next, Ghost(queue@), Ghost(i as int), Ghost(done), Ghost(start), Ghost(enemies@), Ghost(md), Ghost(d));
                proof {
                    done = done.insert((0int, -1int));
                }
                look(pos, 1, 0, obstacles, grid_width, grid_height, &mut visited, &mut next, Ghost(queue@), Ghost(i as int), Ghost(done), Ghost(start), Ghost(enemies@), Ghost(md), Ghost(d));
                proof {
                    done = done.insert((1int, 0int));
                }
                look(pos, -1, 0, obstacles, grid_width, grid_height, &mut visited, &mut next, Ghost(queue@), Ghost(i as int), Ghost(done), Ghost(start), Ghost(enemies@), Ghost(md), Ghost(d));
                proof {
                    done = done.insert((-1int, 0int));
                    assert forall|j: int, n: Cell|
                        0 <= j < i + 1 && #[trigger] cell_step(
                            queue@[j],
                            n,
                            blocked,
                            wi,
                            hi,
                            false,
                        ) implies visited@.contains(n) by {
                        if j == i {
                            assert(done.contains((n.0 - queue@[i as int].0, n.1 - queue@[i as int].1)));
                        }
                    }
                }
                i = i + 1;
            }
            proof {
                lemma_level_up(visited@, queue@, next@, start, enemies@, blocked, wi, hi, md, d);
                lemma_marks_bound(visited@, wi, hi);
                d = d + 1;
            }
            queue = next;
        }
        proof {
            assert forall|c: Cell, n: int| #[trigger]
                within(start, c, blocked, wi, hi, n) implies !refuge(c, enemies@, blocked, md) by {
                assert forall|o: Cell| #[trigger] within(start, o, blocked, wi, hi, d) implies within(
                    start,
                    o,
                    blocked,
                    wi,
                    hi,
                    d - 1,
                ) by {
                    if !within(start, o, blocked, wi, hi, d - 1) {
                        assert(queued(queue@, o));
                    }
                }
                lemma_within_closed(start, c, blocked, wi, hi, d, n);
            }
        }
        None
    }
}

/// No more cells are marked than the grid has.
proof fn lemma_marks_bound(v: Set<Cell>, w: int, h: int)
    ensures
        0 <= grid_sum(marks(v), 0, true, w, h) <= cell_count(w, h),
{
    lemma_grid_bounds(marks(v), 0, true, w, h);
}

} // verus!
