//! Breadth-first search over a maze: visits cells in FIFO discovery order,
//! records a predecessor trace, and reconstructs the route from start to
//! finish when one exists.

use vstd::prelude::*;
use std::collections::VecDeque;
use crate::matrix::{adjacent, lemma_adjacent_is_neighbor, lemma_reverse_delta, neighbor, Cell,
    Direction, Matrix};

verus! {

/// The row-major position of `c` in a flat table of `m`'s cells.
pub open spec fn cell_index(m: Matrix, c: Cell) -> int {
    (c.0 as int) * (m.n_cols as int) + (c.1 as int)
}

/// Distinct cells of the grid sit at distinct row-major positions.
proof fn lemma_index_injective(m: Matrix, a: Cell, b: Cell)
    requires
        m.inside_spec(a),
        m.inside_spec(b),
        cell_index(m, a) == cell_index(m, b),
    ensures
        a == b,
{
    assert(a.0 as int == b.0 as int && a.1 as int == b.1 as int) by (nonlinear_arith)
        requires
            0 <= (a.0 as int) && (a.0 as int) < (m.n_rows as int),
            0 <= (b.0 as int) && (b.0 as int) < (m.n_rows as int),
            0 <= (a.1 as int) && (a.1 as int) < (m.n_cols as int),
            0 <= (b.1 as int) && (b.1 as int) < (m.n_cols as int),
            (a.0 as int) * (m.n_cols as int) + (a.1 as int) == (b.0 as int) * (m.n_cols as int)
                + (b.1 as int),
    ;
}

/// The row-major position of a cell of the grid lies within the flat table.
proof fn lemma_index_bound(m: Matrix, c: Cell)
    requires
        m.inside_spec(c),
    ensures
        0 <= cell_index(m, c),
        cell_index(m, c) < (m.n_rows as int) * (m.n_cols as int),
{
    assert(0 <= (c.0 as int) * (m.n_cols as int) && (c.0 as int) * (m.n_cols as int) + (
        c.1 as int) < (m.n_rows as int) * (m.n_cols as int)) by (nonlinear_arith)
        requires
            0 <= (c.0 as int) && (c.0 as int) < (m.n_rows as int),
            0 <= (c.1 as int) && (c.1 as int) < (m.n_cols as int),
    ;
}

/// The row-major position of `c` in the grid.
fn cell_index_exec(m: &Matrix, c: Cell) -> (i: usize)
    requires
        m.dims_ok(),
        m.inside_spec(c),
    ensures
        i as int == cell_index(*m, c),
        i < m.n_rows * m.n_cols,
{
    proof {
        lemma_index_bound(*m, c);
    }
    (c.0 as usize) * m.n_cols + (c.1 as usize)
}

/// How many entries of `s` are true.
spec fn count_true(s: Seq<bool>) -> int
    decreases s.len(),
{
    if s.len() == 0 {
        0
    } else {
        count_true(s.drop_last()) + if s.last() {
            1int
        } else {
            0int
        }
    }
}

proof fn lemma_count_true_le_len(s: Seq<bool>)
    ensures
        0 <= count_true(s) <= s.len(),
    decreases s.len(),
{
    if s.len() > 0 {
        lemma_count_true_le_len(s.drop_last());
    }
}

proof fn lemma_count_true_update(s: Seq<bool>, i: int)
    requires
        0 <= i < s.len(),
        !s[i],
    ensures
        count_true(s.update(i, true)) == count_true(s) + 1,
    decreases s.len(),
{
    let t = s.update(i, true);
    if i == s.len() - 1 {
        assert(t.drop_last() =~= s.drop_last());
    } else {
        lemma_count_true_update(s.drop_last(), i);
        assert(t.drop_last() =~= s.drop_last().update(i, true));
        assert(t.last() == s.last());
    }
}

/// `q` is a real walk through `m` from the start cell to `x`: it stays on
/// free cells and each step is one 4-directional move.
pub open spec fn route_from_start(m: Matrix, q: Seq<Cell>, x: Cell) -> bool {
    &&& q.len() >= 1
    &&& q[0] == m.start
    &&& q[q.len() - 1] == x
    &&& (forall|i: int| 0 <= i < q.len() ==> m.free_spec(#[trigger] q[i]))
    &&& (forall|i: int| 0 <= i < q.len() - 1 ==> adjacent(q[i], #[trigger] q[i + 1]))
}

/// `p` is a real route through `m`: it begins at the start, ends at the
/// finish, stays on free cells, and each step is one 4-directional move.
pub open spec fn valid_route(m: Matrix, p: Seq<Cell>) -> bool {
    route_from_start(m, p, m.finish)
}

/// Every free cell adjacent to a member of `visits` is itself a member: the
/// shape the expanded set has when the search exhausts the maze.
pub open spec fn closed_under_free_adjacency(m: Matrix, visits: Seq<Cell>) -> bool {
    forall|a: Cell, b: Cell|
        visits.contains(a) && #[trigger] adjacent(a, b) && m.free_spec(b) ==> visits.contains(b)
}

/// The predecessor recorded for the `j`-th discovered cell is an adjacent
/// cell discovered strictly earlier and one step closer to the start.
spec fn pred_ok(m: Matrix, trace: Seq<Option<Cell>>, disc: Seq<Cell>, depth: Seq<int>, j: int) -> bool
    recommends
        0 <= j < disc.len(),
        depth.len() == disc.len(),
{
    match trace[cell_index(m, disc[j])] {
        Some(p) => adjacent(p, disc[j]) && (exists|i: int|
            0 <= i < j && #[trigger] disc[i] == p && depth[j] == depth[i] + 1),
        None => false,
    }
}

/// The invariant tying the search tables to the ghost discovery order
/// `disc`: the tables cover the whole grid, `disc` lists distinct free cells
/// starting at the start cell, a cell is flagged visited exactly when it was
/// discovered, and every discovered cell but the start has a recorded
/// predecessor discovered before it.
spec fn search_state_ok(
    m: Matrix,
    visited: Seq<bool>,
    trace: Seq<Option<Cell>>,
    disc: Seq<Cell>,
    depth: Seq<int>,
) -> bool {
    &&& visited.len() == (m.n_rows as int) * (m.n_cols as int)
    &&& trace.len() == (m.n_rows as int) * (m.n_cols as int)
    &&& disc.len() >= 1
    &&& disc[0] == m.start
    &&& disc.len() <= (m.n_rows as int) * (m.n_cols as int)
    &&& count_true(visited) == disc.len()
    &&& depth.len() == disc.len()
    &&& depth[0] == 0
    &&& (forall|a: int, b: int| 0 <= a <= b < disc.len() ==> #[trigger] depth[a] <= #[trigger] depth[b])
    &&& (forall|k: int| 0 <= k < disc.len() ==> m.free_spec(#[trigger] disc[k]))
    &&& (forall|k: int, l: int| 0 <= k < l < disc.len() ==> disc[k] != disc[l])
    &&& (forall|k: int| 0 <= k < disc.len() ==> visited[cell_index(m, #[trigger] disc[k])])
    &&& (forall|c: Cell|
        m.inside_spec(c) && visited[#[trigger] cell_index(m, c)] ==> disc.contains(c))
    &&& trace[cell_index(m, m.start)] is None
    &&& (forall|c: Cell|
        m.inside_spec(c) && (#[trigger] trace[cell_index(m, c)]) is Some ==> disc.contains(c)
            && c != m.start)
    &&& (forall|j: int| 1 <= j < disc.len() ==> pred_ok(m, trace, disc, depth, j))
}

/// Expand one dequeued cell: enqueue each free, not yet visited neighbour,
/// flag it visited, and record the cell it was reached from. Returns the
/// extended ghost discovery order and the matching discovery depths.
#[verifier::loop_isolation(false)]
#[verifier::rlimit(100)]
fn expand(
    m: &Matrix,
    cell: Cell,
    que: &mut VecDeque<Cell>,
    visited: &mut Vec<bool>,
    trace: &mut Vec<Option<Cell>>,
    Ghost(visits): Ghost<Seq<Cell>>,
    Ghost(disc0): Ghost<Seq<Cell>>,
    Ghost(depth0): Ghost<Seq<int>>,
) -> (r: (Ghost<Seq<Cell>>, Ghost<Seq<int>>))
    requires
        m.well_formed(),
        search_state_ok(*m, old(visited)@, old(trace)@, disc0, depth0),
        disc0 =~= visits + old(que)@,
        visits.len() >= 1,
        cell == visits[visits.len() - 1],
        m.free_spec(cell),
        forall|t: int|
            visits.len() <= t < disc0.len() ==> #[trigger] depth0[t] <= depth0[visits.len() - 1]
                + 1,
    ensures
        search_state_ok(*m, final(visited)@, final(trace)@, r.0@, r.1@),
        r.0@ =~= visits + final(que)@,
        disc0 =~= r.0@.subrange(0, disc0.len() as int),
        depth0 =~= r.1@.subrange(0, depth0.len() as int),
        r.0@.len() >= disc0.len(),
        forall|y: Cell| disc0.contains(y) ==> r.0@.contains(y),
        forall|t: int|
            visits.len() <= t < r.0@.len() ==> #[trigger] r.1@[t] <= depth0[visits.len() - 1] + 1,
        forall|b: Cell|
            #[trigger] adjacent(cell, b) && m.free_spec(b) ==> (exists|t: int|
                0 <= t < r.0@.len() && #[trigger] r.0@[t] == b && r.1@[t] <= depth0[visits.len()
                    - 1] + 1),
{
    let ghost mut disc: Seq<Cell> = disc0;
    let ghost mut depth: Seq<int> = depth0;
    let ghost dcell: int = depth0[visits.len() - 1];
    let dirs: Vec<Direction> = Direction::get_dirs();
    let mut d: usize = 0;
    while d < dirs.len()
        invariant
            d <= dirs.len(),
            search_state_ok(*m, visited@, trace@, disc, depth),
            disc =~= visits + que@,
            disc0 =~= disc.subrange(0, disc0.len() as int),
            depth0 =~= depth.subrange(0, depth0.len() as int),
            disc.len() >= disc0.len(),
            depth[visits.len() - 1] == dcell,
            forall|t: int| visits.len() <= t < disc.len() ==> #[trigger] depth[t] <= dcell + 1,
            forall|dd: int|
                0 <= dd < d ==> (m.free_spec(neighbor(cell, #[trigger] dirs@[dd])) ==> (exists|
                    t: int,
                |
                    0 <= t < disc.len() && #[trigger] disc[t] == neighbor(cell, dirs@[dd])
                        && depth[t] <= dcell + 1)),
        decreases dirs@.len() - d,
    {
        let dir: Direction = dirs[d];
        let new_cell: Cell = cell.move_dir(dir);
        if m.is_free_cell(new_cell) {
            let ni = cell_index_exec(m, new_cell);
            if !visited[ni] {
                let ghost old_visited = visited@;
                let ghost old_disc = disc;
                let ghost old_depth = depth;
                let ghost old_trace = trace@;
                visited[ni] = true;
                que.push_back(new_cell);
                proof {
                    lemma_reverse_delta(dir);
                }
                let pred: Cell = new_cell.move_dir(dir.reverse());
                proof {
                    assert(pred == cell);
                }
                trace[ni] = Some(pred);
                proof {
                    lemma_count_true_update(old_visited, ni as int);
                    lemma_count_true_le_len(visited@);
                    assert(!old_disc.contains(new_cell)) by {
                        if old_disc.contains(new_cell) {
                            let k = choose|k: int|
                                0 <= k < old_disc.len() && old_disc[k] == new_cell;
                            assert(old_visited[cell_index(*m, old_disc[k])]);
                        }
                    }
                    disc = disc.push(new_cell);
                    depth = depth.push(dcell + 1);
                    assert(disc0 =~= disc.subrange(0, disc0.len() as int));
                    assert(depth0 =~= depth.subrange(0, depth0.len() as int));
                    assert forall|y: Cell| old_disc.contains(y) implies disc.contains(y) by {
                        let k = choose|k: int| 0 <= k < old_disc.len() && old_disc[k] == y;
                        assert(disc[k] == y);
                    }
                    assert(disc.contains(new_cell)) by {
                        assert(disc[disc.len() - 1] == new_cell);
                    }
                    assert forall|a: int, b: int| 0 <= a <= b < disc.len() implies #[trigger] depth[a]
                        <= #[trigger] depth[b] by {
                        if b == disc.len() - 1 && a < b {
                            assert(depth[a] == old_depth[a]);
                            if a <= visits.len() - 1 {
                                assert(old_depth[a] <= old_depth[visits.len() - 1]);
                            }
                        }
                    }
                    assert forall|c: Cell|
                        m.inside_spec(c) && visited@[#[trigger] cell_index(*m, c)]
                            implies disc.contains(c) by {
                        lemma_index_bound(*m, c);
                        if cell_index(*m, c) == ni as int {
                            lemma_index_injective(*m, c, new_cell);
                        } else {
                            assert(old_visited[cell_index(*m, c)]);
                        }
                    }
                    assert forall|k2: int, l2: int| 0 <= k2 < l2 < disc.len() implies disc[k2]
                        != disc[l2] by {
                        if l2 == disc.len() - 1 {
                            assert(disc[k2] == old_disc[k2]);
                            if old_disc[k2] == new_cell {
                                assert(old_disc.contains(new_cell));
                            }
                        }
                    }
                    assert forall|k2: int| 0 <= k2 < disc.len() implies visited@[cell_index(
                        *m,
                        #[trigger] disc[k2],
                    )] by {
                        lemma_index_bound(*m, disc[k2]);
                        if k2 < old_disc.len() {
                            assert(old_visited[cell_index(*m, old_disc[k2])]);
                        }
                    }
                    assert(trace@ =~= old_trace.update(ni as int, Some(pred)));
                    lemma_index_bound(*m, m.start);
                    assert(cell_index(*m, m.start) != ni as int) by {
                        if cell_index(*m, m.start) == ni as int {
                            lemma_index_injective(*m, m.start, new_cell);
                            assert(old_visited[cell_index(*m, m.start)]);
                        }
                    }
                    assert forall|c: Cell|
                        m.inside_spec(c) && (#[trigger] trace@[cell_index(*m, c)]) is Some
                            implies disc.contains(c) && c != m.start by {
                        lemma_index_bound(*m, c);
                        if cell_index(*m, c) == ni as int {
                            lemma_index_injective(*m, c, new_cell);
                            assert(!old_visited[cell_index(*m, new_cell)]);
                            assert(old_disc[0] == m.start);
                            assert(old_visited[cell_index(*m, old_disc[0])]);
                        } else {
                            assert(old_trace[cell_index(*m, c)] is Some);
                        }
                    }
                    assert forall|j: int| 1 <= j < disc.len() implies pred_ok(
                        *m,
                        trace@,
                        disc,
                        depth,
                        j,
                    ) by {
                        if j < old_disc.len() {
                            assert(pred_ok(*m, old_trace, old_disc, old_depth, j));
                            lemma_index_bound(*m, disc[j]);
                            assert(cell_index(*m, disc[j]) != ni as int) by {
                                if cell_index(*m, disc[j]) == ni as int {
                                    lemma_index_injective(*m, disc[j], new_cell);
                                }
                            }
                            assert(disc[j] == old_disc[j]);
                            let p0 = old_trace[cell_index(*m, old_disc[j])]->0;
                            let i0 = choose|i0: int|
                                0 <= i0 < j && old_disc[i0] == p0 && old_depth[j] == old_depth[i0]
                                    + 1;
                            assert(disc[i0] == p0 && depth[j] == depth[i0] + 1);
                        } else {
                            assert(disc[j] == new_cell);
                            assert(trace@[cell_index(*m, new_cell)] == Some(pred));
                            assert(adjacent(pred, new_cell));
                            assert(disc[visits.len() - 1] == cell);
                            assert(visits.len() - 1 < j);
                            assert(depth[j] == depth[visits.len() - 1] + 1);
                        }
                    }
                }
            }
        }
        d = d + 1;
        proof {
            assert(m.free_spec(neighbor(cell, dirs@[d - 1])) ==> (exists|t: int|
                0 <= t < disc.len() && #[trigger] disc[t] == neighbor(cell, dirs@[d - 1])
                    && depth[t] <= dcell + 1)) by {
                let nb = neighbor(cell, dirs@[d - 1]);
                if m.free_spec(nb) {
                    assert(disc.contains(nb)) by {
                        lemma_index_bound(*m, nb);
                    }
                    let t = choose|t: int| 0 <= t < disc.len() && disc[t] == nb;
                    if t <= visits.len() - 1 {
                        assert(depth[t] <= depth[visits.len() - 1]);
                    }
                }
            }
        }
    }
    proof {
        assert forall|b: Cell|
            #[trigger] adjacent(cell, b) && m.free_spec(b) implies (exists|t: int|
                0 <= t < disc.len() && #[trigger] disc[t] == b && depth[t] <= dcell + 1) by {
            lemma_adjacent_is_neighbor(cell, b);
            assert(dirs@[0] == Direction::Up && dirs@[1] == Direction::Down && dirs@[2]
                == Direction::Left && dirs@[3] == Direction::Right);
        }
        assert forall|y: Cell| disc0.contains(y) implies disc.contains(y) by {
            let k = choose|k: int| 0 <= k < disc0.len() && disc0[k] == y;
            assert(disc0[k] == disc.subrange(0, disc0.len() as int)[k]);
            assert(disc[k] == y);
        }
    }
    (Ghost(disc), Ghost(depth))
}

/// A chain of strict decreases orders any two of its positions.
proof fn lemma_strictly_decreasing(ks: Seq<int>, i: int, j: int)
    requires
        forall|t: int| 0 <= t < ks.len() - 1 ==> #[trigger] ks[t] > ks[t + 1],
        0 <= i < j < ks.len(),
    ensures
        ks[i] > ks[j],
    decreases j - i,
{
    assert(ks[i] > ks[i + 1]);
    if i + 1 < j {
        lemma_strictly_decreasing(ks, i + 1, j);
    }
}

/// Walk the predecessor trace backward from the finish, then reverse the
/// collected cells into a start-to-finish route.
#[verifier::loop_isolation(false)]
#[verifier::rlimit(100)]
fn reconstruct(
    m: &Matrix,
    trace: &Vec<Option<Cell>>,
    Ghost(disc): Ghost<Seq<Cell>>,
    Ghost(depth): Ghost<Seq<int>>,
) -> (path: Vec<Cell>)
    requires
        m.well_formed(),
        trace@.len() == (m.n_rows as int) * (m.n_cols as int),
        disc.len() >= 1,
        disc[0] == m.start,
        depth.len() == disc.len(),
        depth[0] == 0,
        forall|k: int| 0 <= k < disc.len() ==> m.free_spec(#[trigger] disc[k]),
        forall|k: int, l: int| 0 <= k < l < disc.len() ==> disc[k] != disc[l],
        trace@[cell_index(*m, m.start)] is None,
        forall|j: int| 1 <= j < disc.len() ==> pred_ok(*m, trace@, disc, depth, j),
        disc.contains(m.finish),
    ensures
        valid_route(*m, path@),
        forall|i: int, j: int| 0 <= i < j < path@.len() ==> path@[i] != path@[j],
        forall|t: int|
            0 <= t < disc.len() && #[trigger] disc[t] == m.finish ==> path@.len() == depth[t] + 1,
        m.start == m.finish ==> path@ =~= seq![m.start],
{
    let mut path_rev: Vec<Cell> = Vec::new();
    let mut cur: Cell = m.finish;
    path_rev.push(cur);
    let ghost mut k: int = choose|kk: int| 0 <= kk < disc.len() && disc[kk] == m.finish;
    let ghost kf: int = k;
    let ghost mut ks: Seq<int> = seq![k];
    proof {
        assert(m.free_spec(cur)) by {
            assert(disc[k] == cur);
        }
    }
    let mut step: Option<Cell> = trace[cell_index_exec(m, cur)];
    while step.is_some()
        invariant
            0 <= k < disc.len(),
            disc[k] == cur,
            m.free_spec(cur),
            step == trace@[cell_index(*m, cur)],
            path_rev@.len() >= 1,
            path_rev@[0] == m.finish,
            path_rev@[path_rev@.len() - 1] == cur,
            forall|i: int| 0 <= i < path_rev@.len() ==> m.free_spec(#[trigger] path_rev@[i]),
            forall|i: int|
                0 <= i < path_rev@.len() - 1 ==> adjacent(
                    path_rev@[i + 1],
                    #[trigger] path_rev@[i],
                ),
            m.start == m.finish ==> path_rev@.len() == 1,
            ks.len() == path_rev@.len(),
            forall|i: int|
                0 <= i < ks.len() ==> 0 <= #[trigger] ks[i] < disc.len() && disc[ks[i]]
                    == path_rev@[i],
            forall|i: int| 0 <= i < ks.len() - 1 ==> #[trigger] ks[i] > ks[i + 1],
            ks[ks.len() - 1] == k,
            0 <= kf < disc.len() && disc[kf] == m.finish,
            depth[k] == depth[kf] - (path_rev@.len() - 1),
        decreases k,
    {
        proof {
            assert(k >= 1) by {
                if k == 0 {
                    assert(cur == m.start);
                }
            }
            assert(pred_ok(*m, trace@, disc, depth, k));
        }
        let p: Cell = step.unwrap();
        proof {
            let i0 = choose|i0: int|
                0 <= i0 < k && disc[i0] == p && depth[k] == depth[i0] + 1;
            if m.start == m.finish {
                assert(trace@[cell_index(*m, m.start)] is None);
                assert(path_rev@[path_rev@.len() - 1] == cur);
                assert(false);
            }
            k = i0;
            ks = ks.push(i0);
        }
        cur = p;
        path_rev.push(cur);
        step = trace[cell_index_exec(m, cur)];
    }
    proof {
        assert(k == 0 && cur == m.start) by {
            if k >= 1 {
                assert(pred_ok(*m, trace@, disc, depth, k));
            }
        }
        assert(path_rev@.len() - 1 == depth[kf]);
        assert forall|i: int, j: int| 0 <= i < j < path_rev@.len() implies path_rev@[i]
            != path_rev@[j] by {
            lemma_strictly_decreasing(ks, i, j);
            assert(disc[ks[i]] == path_rev@[i] && disc[ks[j]] == path_rev@[j]);
        }
    }
    let mut path: Vec<Cell> = Vec::new();
    let mut idx: usize = path_rev.len();
    while idx > 0
        invariant
            idx <= path_rev@.len(),
            path@.len() == path_rev@.len() - idx,
            forall|j: int|
                0 <= j < path@.len() ==> #[trigger] path@[j] == path_rev@[path_rev@.len() - 1
                    - j],
        decreases idx,
    {
        idx = idx - 1;
        let c: Cell = path_rev[idx];
        path.push(c);
    }
    proof {
        assert(path@[0] == path_rev@[path_rev@.len() - 1]);
        assert(path@[path@.len() - 1] == path_rev@[0]);
        assert forall|i: int| 0 <= i < path@.len() - 1 implies adjacent(
            path@[i],
            #[trigger] path@[i + 1],
        ) by {
            let l = path_rev@.len() as int;
            assert(path@[i] == path_rev@[l - 1 - i]);
            assert(path@[i + 1] == path_rev@[l - 2 - i]);
            assert(adjacent(path_rev@[(l - 2 - i) + 1], path_rev@[l - 2 - i]));
        }
        assert(valid_route(*m, path@));
        assert forall|i: int, j: int| 0 <= i < j < path@.len() implies path@[i] != path@[j] by {
            let l = path_rev@.len() as int;
            assert(path@[i] == path_rev@[l - 1 - i]);
            assert(path@[j] == path_rev@[l - 1 - j]);
            assert(path_rev@[l - 1 - j] != path_rev@[l - 1 - i]);
        }
        assert forall|t: int|
            0 <= t < disc.len() && #[trigger] disc[t] == m.finish implies path@.len() == depth[t]
                + 1 by {
            assert(disc[kf] == m.finish);
        }
    }
    path
}

/// Along any route, every cell lies in any set that contains the start and
/// is closed under stepping to free adjacent cells.
proof fn lemma_route_stays_in_closed_set(m: Matrix, visits: Seq<Cell>, p: Seq<Cell>, i: int)
    requires
        route_from_start(m, p, p[p.len() - 1]),
        visits.contains(m.start),
        closed_under_free_adjacency(m, visits),
        0 <= i < p.len(),
    ensures
        visits.contains(p[i]),
    decreases i,
{
    if i > 0 {
        lemma_route_stays_in_closed_set(m, visits, p, i - 1);
        assert(adjacent(p[i - 1], p[i - 1 + 1]));
    }
}

/// No route can exist through a maze when some set of cells contains the
/// start, is closed under free adjacency, and misses the finish. This is
/// what justifies reporting "no path" after an exhaustive search.
pub proof fn lemma_closed_set_excludes_route(m: Matrix, visits: Seq<Cell>, p: Seq<Cell>)
    requires
        visits.contains(m.start),
        !visits.contains(m.finish),
        closed_under_free_adjacency(m, visits),
    ensures
        !valid_route(m, p),
{
    if valid_route(m, p) {
        lemma_route_stays_in_closed_set(m, visits, p, p.len() - 1);
        assert(visits.contains(m.finish));
    }
}

/// Every discovered cell is reachable: the predecessor chain recorded for
/// it spells out a walk from the start of exactly its discovery depth.
proof fn lemma_discovered_has_route(
    m: Matrix,
    trace: Seq<Option<Cell>>,
    disc: Seq<Cell>,
    depth: Seq<int>,
    j: int,
)
    requires
        depth.len() == disc.len(),
        disc.len() >= 1,
        disc[0] == m.start,
        depth[0] == 0,
        forall|k: int| 0 <= k < disc.len() ==> m.free_spec(#[trigger] disc[k]),
        forall|j2: int| 1 <= j2 < disc.len() ==> pred_ok(m, trace, disc, depth, j2),
        0 <= j < disc.len(),
    ensures
        exists|q: Seq<Cell>| #[trigger] route_from_start(m, q, disc[j]) && q.len() == depth[j]
            + 1,
    decreases j,
{
    if j == 0 {
        let q = seq![m.start];
        assert(route_from_start(m, q, disc[0]) && q.len() == depth[0] + 1) by {
            assert(q[0] == m.start && q.len() == 1);
            assert(m.free_spec(disc[0]));
        }
    } else {
        assert(pred_ok(m, trace, disc, depth, j));
        let p = trace[cell_index(m, disc[j])]->0;
        let i = choose|i: int| 0 <= i < j && #[trigger] disc[i] == p && depth[j] == depth[i] + 1;
        lemma_discovered_has_route(m, trace, disc, depth, i);
        let q0 = choose|q0: Seq<Cell>|
            #[trigger] route_from_start(m, q0, disc[i]) && q0.len() == depth[i] + 1;
        let q = q0.push(disc[j]);
        assert(route_from_start(m, q, disc[j]) && q.len() == depth[j] + 1) by {
            assert(q[q.len() - 2] == disc[i]);
            assert(adjacent(disc[i], disc[j]));
            assert forall|i2: int| 0 <= i2 < q.len() - 1 implies adjacent(
                q[i2],
                #[trigger] q[i2 + 1],
            ) by {
                if i2 < q0.len() - 1 {
                    assert(q[i2] == q0[i2] && q[i2 + 1] == q0[i2 + 1]);
                    assert(adjacent(q0[i2], q0[i2 + 1]));
                }
            }
            assert forall|i2: int| 0 <= i2 < q.len() implies m.free_spec(#[trigger] q[i2]) by {
                if i2 < q0.len() {
                    assert(q[i2] == q0[i2]);
                }
            }
        }
    }
}

/// Any route from the start, followed for `i` steps, has either crossed the
/// expansion frontier (met a cell as deep as the `vl-1`-th discovery) or sits
/// on a discovered cell of depth at most `i`. This is what makes the first
/// discovery of the finish a shortest route to it.
proof fn lemma_route_visits_depth(
    m: Matrix,
    disc: Seq<Cell>,
    depth: Seq<int>,
    vl: int,
    q: Seq<Cell>,
    i: int,
)
    requires
        disc.len() == depth.len(),
        1 <= vl <= disc.len(),
        disc[0] == m.start,
        depth[0] == 0,
        forall|a: int, b: int|
            0 <= a <= b < disc.len() ==> #[trigger] depth[a] <= #[trigger] depth[b],
        forall|k: int, l: int| 0 <= k < l < disc.len() ==> disc[k] != disc[l],
        forall|k: int| #![trigger disc[k]]
            0 <= k < vl - 1 ==> (forall|b: Cell|
                #[trigger] adjacent(disc[k], b) && m.free_spec(b) ==> (exists|t: int|
                    0 <= t < disc.len() && #[trigger] disc[t] == b && depth[t] <= depth[k] + 1)),
        q.len() >= 1,
        q[0] == m.start,
        forall|t: int| 0 <= t < q.len() ==> m.free_spec(#[trigger] q[t]),
        forall|t: int| 0 <= t < q.len() - 1 ==> adjacent(q[t], #[trigger] q[t + 1]),
        0 <= i < q.len(),
    ensures
        depth[vl - 1] <= i || (exists|t: int|
            0 <= t < disc.len() && #[trigger] disc[t] == q[i] && depth[t] <= i),
    decreases i,
{
    if i == 0 {
        assert(disc[0] == q[0] && depth[0] <= 0);
    } else {
        lemma_route_visits_depth(m, disc, depth, vl, q, i - 1);
        if depth[vl - 1] <= i - 1 {
        } else if (exists|t: int|
            0 <= t < disc.len() && #[trigger] disc[t] == q[i - 1] && depth[t] <= i - 1) {
            let t = choose|t: int|
                0 <= t < disc.len() && #[trigger] disc[t] == q[i - 1] && depth[t] <= i - 1;
            if t < vl - 1 {
                assert(adjacent(q[i - 1], q[i - 1 + 1]));
                assert(adjacent(disc[t], q[i]));
                let t2 = choose|t2: int|
                    0 <= t2 < disc.len() && #[trigger] disc[t2] == q[i] && depth[t2] <= depth[t]
                        + 1;
                assert(depth[t2] <= i);
            } else {
                assert(depth[vl - 1] <= depth[t]);
            }
        }
    }
}

/// A breadth-first solver bound to a maze it never mutates.
pub struct BFSSolver<'s> {
    pub matrix: &'s Matrix,
}

impl<'s> BFSSolver<'s> {
    /// The maze this solver searches.
    pub open spec fn grid(self) -> Matrix {
        *self.matrix
    }

    pub fn new(matrix: &'s Matrix) -> (r: BFSSolver<'s>)
        ensures
            r.matrix == matrix,
    {
        BFSSolver { matrix }
    }

    /// Search the maze breadth-first. Returns the cells expanded, in the
    /// exact order they were taken off the FIFO frontier (the order in which
    /// an observer sees them), and the reconstructed start-to-finish route
    /// when the finish was reached, or `None` when no route exists.
    #[verifier::loop_isolation(false)]
    #[verifier::rlimit(100)]
    pub fn solve(&self) -> (r: (Vec<Cell>, Option<Vec<Cell>>))
        requires
            self.grid().well_formed(),
        ensures
            r.0@.len() >= 1,
            r.0@[0] == self.grid().start,
            forall|i: int| 0 <= i < r.0@.len() ==> self.grid().free_spec(#[trigger] r.0@[i]),
            forall|i: int, j: int| 0 <= i < j < r.0@.len() ==> r.0@[i] != r.0@[j],
            match r.1 {
                Some(p) => valid_route(self.grid(), p@) && (forall|i: int, j: int|
                    0 <= i < j < p@.len() ==> p@[i] != p@[j]) && (forall|q: Seq<Cell>|
                    valid_route(self.grid(), q) ==> q.len() >= p@.len()) && r.0@[r.0@.len() - 1]
                    == self.grid().finish,
                None => {
                    &&& !r.0@.contains(self.grid().finish)
                    &&& closed_under_free_adjacency(self.grid(), r.0@)
                    &&& (forall|p: Seq<Cell>| !valid_route(self.grid(), p))
                    &&& (forall|c: Cell|
                        r.0@.contains(c) <==> (exists|q: Seq<Cell>| #[trigger] route_from_start(
                            self.grid(),
                            q,
                            c,
                        )))
                },
            },
            self.grid().start == self.grid().finish ==> r.0@.len() == 1 && (match r.1 {
                Some(p) => p@ =~= seq![self.grid().start],
                None => false,
            }),
    {
        let m: &Matrix = self.matrix;
        let n_total: usize = m.n_rows * m.n_cols;
        let mut visited: Vec<bool> = Vec::new();
        let mut trace: Vec<Option<Cell>> = Vec::new();
        let mut i: usize = 0;
        while i < n_total
            invariant
                i <= n_total,
                visited@.len() == i,
                trace@.len() == i,
                count_true(visited@) == 0,
                forall|k: int| 0 <= k < i ==> !visited@[k],
                forall|k: int| 0 <= k < i ==> (#[trigger] trace@[k]) is None,
            decreases n_total - i,
        {
            let ghost prev = visited@;
            visited.push(false);
            trace.push(None);
            proof {
                assert(visited@.drop_last() =~= prev);
            }
            i = i + 1;
        }
        let start: Cell = m.start;
        let si = cell_index_exec(m, start);
        let mut que: VecDeque<Cell> = VecDeque::new();
        let mut visits: Vec<Cell> = Vec::new();
        que.push_back(start);
        let ghost pre_mark = visited@;
        visited[si] = true;
        let ghost mut disc: Seq<Cell> = seq![start];
        let ghost mut depth: Seq<int> = seq![0int];
        let mut reached: bool = false;
        proof {
            lemma_count_true_update(pre_mark, si as int);
            assert forall|c: Cell|
                m.inside_spec(c) && visited@[#[trigger] cell_index(*m, c)] implies disc.contains(
                c,
            ) by {
                lemma_index_bound(*m, c);
                if cell_index(*m, c) == si as int {
                    lemma_index_injective(*m, c, start);
                    assert(disc[0] == c);
                } else {
                    assert(!pre_mark[cell_index(*m, c)]);
                }
            }
            assert forall|c: Cell|
                m.inside_spec(c) implies !((#[trigger] trace@[cell_index(*m, c)]) is Some) by {
                lemma_index_bound(*m, c);
            }
            assert(disc =~= visits@ + que@);
            assert(search_state_ok(*m, visited@, trace@, disc, depth));
        }
        while que.len() > 0 && !reached
            invariant
                search_state_ok(*m, visited@, trace@, disc, depth),
                disc =~= visits@ + que@,
                forall|k: int| #![trigger visits@[k]]
                    0 <= k < visits@.len() && visits@[k] != m.finish ==> (forall|b: Cell|
                        #[trigger] adjacent(visits@[k], b) && m.free_spec(b) ==> (exists|t: int|
                            0 <= t < disc.len() && #[trigger] disc[t] == b && depth[t] <= depth[k]
                                + 1)),
                forall|t: int, u: int| #![trigger depth[t], depth[u]]
                    visits@.len() <= t < disc.len() && visits@.len() <= u < disc.len() ==> depth[t]
                        <= depth[u] + 1,
                forall|k: int| 0 <= k < visits@.len() - 1 ==> visits@[k] != m.finish,
                reached ==> visits@.len() >= 1 && visits@[visits@.len() - 1] == m.finish,
                !reached ==> !visits@.contains(m.finish),
            decreases que@.len() + 2 * ((n_total as int) - disc.len()),
        {
            let ghost visits_before = visits@;
            let ghost disc_before = disc;
            let ghost depth_before = depth;
            let cell: Cell = que.pop_front().unwrap();
            proof {
                assert(cell == disc[visits@.len() as int]);
                assert(m.free_spec(cell));
            }
            visits.push(cell);
            proof {
                assert(disc =~= visits@ + que@);
            }
            if cell == m.finish {
                reached = true;
            } else {
                proof {
                    assert forall|t: int|
                        visits@.len() <= t < disc.len() implies #[trigger] depth[t]
                            <= depth[visits@.len() - 1] + 1 by {
                        assert(depth[t] <= depth[visits_before.len() as int] + 1);
                    }
                }
                let (Ghost(disc_new), Ghost(depth_new)) = expand(
                    m,
                    cell,
                    &mut que,
                    &mut visited,
                    &mut trace,
                    Ghost(visits@),
                    Ghost(disc),
                    Ghost(depth),
                );
                proof {
                    let vl = visits@.len() as int;
                    let dcell = depth[vl - 1];
                    disc = disc_new;
                    depth = depth_new;
                    assert(depth[vl - 1] == dcell);
                    assert forall|k: int| #![trigger visits@[k]]
                        0 <= k < visits@.len() && visits@[k] != m.finish implies (forall|b: Cell|
                            #[trigger] adjacent(visits@[k], b) && m.free_spec(b) ==> (exists|
                            t: int,
                        |
                            0 <= t < disc.len() && #[trigger] disc[t] == b && depth[t] <= depth[k]
                                + 1)) by {
                        assert forall|b: Cell|
                            #[trigger] adjacent(visits@[k], b) && m.free_spec(b) implies (exists|
                            t: int,
                        |
                            0 <= t < disc.len() && #[trigger] disc[t] == b && depth[t] <= depth[k]
                                + 1) by {
                            if k == vl - 1 {
                                assert(visits@[k] == cell);
                            } else {
                                assert(visits_before[k] == visits@[k]);
                                let t0 = choose|t0: int|
                                    0 <= t0 < disc_before.len() && #[trigger] disc_before[t0] == b
                                        && depth_before[t0] <= depth_before[k] + 1;
                                assert(disc[t0] == disc_before[t0] && depth[t0]
                                    == depth_before[t0]);
                                assert(depth[k] == depth_before[k]);
                            }
                        }
                    }
                    assert forall|t: int, u: int| #![trigger depth[t], depth[u]]
                        visits@.len() <= t < disc.len() && visits@.len() <= u < disc.len()
                            implies depth[t] <= depth[u] + 1 by {
                        assert(depth[t] <= dcell + 1);
                        assert(dcell <= depth[u]);
                    }
                }
            }
        }
        // The frontier is exhausted or the finish was expanded.
        let mut path_opt: Option<Vec<Cell>> = None;
        if reached {
            proof {
                assert(disc.contains(m.finish)) by {
                    assert(visits@[visits@.len() - 1] == m.finish);
                    assert(disc[visits@.len() - 1] == m.finish);
                }
            }
            let path: Vec<Cell> = reconstruct(m, &trace, Ghost(disc), Ghost(depth));
            proof {
                let vl = visits@.len() as int;
                assert(visits@[vl - 1] == m.finish);
                assert(disc[vl - 1] == m.finish);
                assert(path@.len() == depth[vl - 1] + 1);
                assert forall|q: Seq<Cell>| valid_route(*m, q) implies q.len() >= path@.len() by {
                    assert forall|k: int| #![trigger disc[k]]
                        0 <= k < vl - 1 implies (forall|b: Cell|
                            #[trigger] adjacent(disc[k], b) && m.free_spec(b) ==> (exists|t: int|
                                0 <= t < disc.len() && #[trigger] disc[t] == b && depth[t]
                                    <= depth[k] + 1)) by {
                        assert(visits@[k] == disc[k]);
                        assert(visits@[k] != m.finish);
                    }
                    lemma_route_visits_depth(*m, disc, depth, vl, q, q.len() - 1);
                    if (exists|t: int|
                        0 <= t < disc.len() && #[trigger] disc[t] == q[q.len() - 1] && depth[t]
                            <= q.len() - 1) {
                        let t = choose|t: int|
                            0 <= t < disc.len() && #[trigger] disc[t] == q[q.len() - 1]
                                && depth[t] <= q.len() - 1;
                        assert(disc[t] == m.finish);
                        assert(t == vl - 1);
                        assert(depth[vl - 1] <= q.len() - 1);
                    }
                    assert(depth[vl - 1] <= q.len() - 1);
                }
            }
            path_opt = Some(path);
        } else {
            proof {
                assert(que@.len() == 0);
                assert(disc =~= visits@);
                assert(visits@.contains(m.start)) by {
                    assert(visits@[0] == m.start);
                }
                assert(closed_under_free_adjacency(*m, visits@)) by {
                    assert forall|a: Cell, b: Cell|
                        visits@.contains(a) && #[trigger] adjacent(a, b) && m.free_spec(b)
                            implies visits@.contains(b) by {
                        let ka = choose|ka: int| 0 <= ka < visits@.len() && visits@[ka] == a;
                        assert(visits@[ka] != m.finish);
                        assert(adjacent(visits@[ka], b));
                        let t = choose|t: int|
                            0 <= t < disc.len() && #[trigger] disc[t] == b && depth[t]
                                <= depth[ka] + 1;
                        assert(visits@[t] == b);
                    }
                }
                assert forall|p: Seq<Cell>| !valid_route(*m, p) by {
                    lemma_closed_set_excludes_route(*m, visits@, p);
                }
                assert forall|c: Cell|
                    visits@.contains(c) implies (exists|q: Seq<Cell>|
                        #[trigger] route_from_start(*m, q, c)) by {
                    let t = choose|t: int| 0 <= t < visits@.len() && visits@[t] == c;
                    assert(visits@[t] == disc[t]);
                    lemma_discovered_has_route(*m, trace@, disc, depth, t);
                }
                assert forall|c: Cell|
                    (exists|q: Seq<Cell>| #[trigger] route_from_start(*m, q, c))
                        implies visits@.contains(c) by {
                    let q = choose|q: Seq<Cell>| #[trigger] route_from_start(*m, q, c);
                    lemma_route_stays_in_closed_set(*m, visits@, q, q.len() - 1);
                }
            }
        }
        proof {
            assert(visits@.len() >= 1);
            assert forall|i2: int| 0 <= i2 < visits@.len() implies #[trigger] visits@[i2]
                == disc[i2] by {
                assert(disc[i2] == (visits@ + que@)[i2]);
            }
            assert(visits@[0] == disc[0]);
            assert forall|i2: int| 0 <= i2 < visits@.len() implies m.free_spec(
                #[trigger] visits@[i2],
            ) by {
                assert(visits@[i2] == disc[i2]);
            }
            assert forall|i2: int, j2: int| 0 <= i2 < j2 < visits@.len() implies visits@[i2]
                != visits@[j2] by {
                assert(visits@[i2] == disc[i2] && visits@[j2] == disc[j2]);
            }
            if m.start == m.finish {
                assert(visits@.len() == 1) by {
                    if visits@.len() >= 2 {
                        assert(visits@[0] != m.finish);
                    }
                }
                assert(reached) by {
                    if !reached {
                        assert(!visits@.contains(m.finish));
                        assert(visits@[0] == m.start);
                    }
                }
            }
        }
        (visits, path_opt)
    }
}

} // verus!
