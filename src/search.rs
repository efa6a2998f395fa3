use vstd::prelude::*;
use vstd::arithmetic::div_mod::lemma_fundamental_div_mod;
use crate::cell::{Cell, CellType, Coordinate};
use crate::SolveError;
use crate::grid::{
    adjacent, index_of, is_maze_route, is_shortest_route, is_valid_maze, lemma_walks_match, maze_rows, lemma_index_coord, lemma_index_in_range, manhattan, Grid};

verus! {

/// How many positions are still unreached.
pub open spec fn n_unreached(r: Seq<bool>) -> nat
    decreases r.len(),
{
    if r.len() == 0 {
        0
    } else {
        n_unreached(r.drop_last()) + if r.last() {
            0nat
        } else {
            1nat
        }
    }
}

/// The cost recorded at position `j`, counted only once it is reached.
pub open spec fn cost_term(cs: Seq<Cell>, r: Seq<bool>, j: int) -> nat {
    if r[j] {
        cs[j].cost as nat
    } else {
        0
    }
}

/// Sum of the recorded costs of the reached positions among the first `n`.
pub open spec fn potential(cs: Seq<Cell>, r: Seq<bool>, n: int) -> nat
    decreases n,
{
    if n <= 0 {
        0
    } else {
        potential(cs, r, n - 1) + cost_term(cs, r, n - 1)
    }
}

proof fn lemma_unreached_bound(r: Seq<bool>)
    ensures
        n_unreached(r) <= r.len(),
    decreases r.len(),
{
    if r.len() > 0 {
        lemma_unreached_bound(r.drop_last());
    }
}

proof fn lemma_unreached_none(r: Seq<bool>)
    requires
        forall|i: int| 0 <= i < r.len() ==> !r[i],
    ensures
        n_unreached(r) == r.len(),
    decreases r.len(),
{
    if r.len() > 0 {
        lemma_unreached_none(r.drop_last());
    }
}

proof fn lemma_unreached_mark(r: Seq<bool>, j: int)
    requires
        0 <= j < r.len(),
        !r[j],
    ensures
        n_unreached(r.update(j, true)) + 1 == n_unreached(r),
    decreases r.len(),
{
    let r2 = r.update(j, true);
    if j < r.len() - 1 {
        assert(r2.drop_last() =~= r.drop_last().update(j, true));
        lemma_unreached_mark(r.drop_last(), j);
    } else {
        assert(r2.drop_last() =~= r.drop_last());
    }
}

proof fn lemma_potential_update(cs: Seq<Cell>, r: Seq<bool>, cs2: Seq<Cell>, r2: Seq<bool>, j: int, n: int)
    requires
        0 <= j < n <= r.len(),
        r.len() == r2.len(),
        cs.len() == r.len(),
        cs2.len() == r.len(),
        forall|i: int| 0 <= i < r.len() && i != j ==> r2[i] == r[i] && cs2[i].cost == cs[i].cost,
    ensures
        potential(cs2, r2, n) as int == potential(cs, r, n) as int - cost_term(cs, r, j) as int
            + cost_term(cs2, r2, j) as int,
    decreases n,
{
    if n - 1 > j {
        lemma_potential_update(cs, r, cs2, r2, j, n - 1);
    } else {
        lemma_potential_same(cs, r, cs2, r2, j, n - 1);
    }
}

proof fn lemma_potential_same(cs: Seq<Cell>, r: Seq<bool>, cs2: Seq<Cell>, r2: Seq<bool>, j: int, n: int)
    requires
        0 <= n <= j < r.len(),
        r.len() == r2.len(),
        cs.len() == r.len(),
        cs2.len() == r.len(),
        forall|i: int| 0 <= i < r.len() && i != j ==> r2[i] == r[i] && cs2[i].cost == cs[i].cost,
    ensures
        potential(cs2, r2, n) == potential(cs, r, n),
    decreases n,
{
    if n > 0 {
        lemma_potential_same(cs, r, cs2, r2, j, n - 1);
    }
}

/// Search bookkeeping, indexed like the grid's cells: which positions have a
/// recorded cost, which are expanded (the visited set), and the frontier of
/// cell copies, where a copy whose cost is no longer the cell's is stale.
pub struct SearchState {
    pub reached: Vec<bool>,
    pub visited: Vec<bool>,
    pub frontier: Vec<Cell>,
}

pub open spec fn idx(g: &Grid, c: Coordinate) -> int {
    index_of(c, g.width as int)
}

/// The estimate by which the frontier is ordered: cost plus heuristic.
pub open spec fn priority(c: Cell) -> int {
    c.cost + c.manhattan_from_exit
}

/// The frontier holds a copy of `c` with its current cost.
pub open spec fn in_frontier(s: &SearchState, c: Cell) -> bool {
    exists|k: int|
        0 <= k < s.frontier@.len() && (#[trigger] s.frontier@[k]).coordinate == c.coordinate
            && s.frontier@[k].cost == c.cost
}

/// The parent of reached cell `j` is a reached neighbour of lower cost.
pub open spec fn parent_ok(g: &Grid, r: Seq<bool>, j: int) -> bool {
    let c = g.cells@[j];
    let p = c.parent_coord;
    &&& g.in_bounds(p)
    &&& adjacent(c.coordinate, p)
    &&& r[idx(g, p)]
    &&& g.cells@[idx(g, p)].cost < c.cost
}

/// No walk of `g0` from the entrance to `c` has fewer than `k` steps.
pub open spec fn lower_bound(g0: &Grid, c: Coordinate, k: int) -> bool {
    forall|q: Seq<Coordinate>| #[trigger] g0.is_walk_to(q, c) ==> k <= q.len() - 1
}

/// Every open neighbour of cell `j` is reached at cost at most one more.
pub open spec fn relaxed(g0: &Grid, g: &Grid, s: &SearchState, j: int) -> bool {
    forall|c: Coordinate|
        #[trigger] g0.open_at(c) && adjacent(g.cells@[j].coordinate, c) ==> s.reached@[idx(g, c)]
            && g.cells@[idx(g, c)].cost <= g.cells@[j].cost + 1
}

/// What holds between steps of the search; every expanded cell but `u` has
/// had its neighbours relaxed.
#[verifier::opaque]
pub open spec fn inv_except(g: &Grid, g0: &Grid, s: &SearchState, u: int) -> bool {
    let n = g.cells@.len();
    let r = s.reached@;
    let v = s.visited@;
    let cs = g.cells@;
    &&& g.wf()
    &&& g.same_maze(g0)
    &&& r.len() == n
    &&& v.len() == n
    &&& r[g.entrance_index()]
    &&& cs[g.entrance_index()].cost == 0
    &&& !v[g.exit_index()]
    &&& forall|j: int| 0 <= j < n && #[trigger] v[j] ==> r[j]
    &&& forall|j: int|
        0 <= j < n && #[trigger] r[j] ==> cs[j].cell_type != CellType::Wall && cs[j].cost + n_unreached(r) < n
    &&& forall|j: int| 0 <= j < n && #[trigger] r[j] && j != g.entrance_index() ==> parent_ok(g, r, j)
    &&& forall|j: int| 0 <= j < n && #[trigger] v[j] ==> lower_bound(g0, cs[j].coordinate, cs[j].cost as int)
    &&& forall|j: int| 0 <= j < n && #[trigger] v[j] && j != u ==> relaxed(g0, g, s, j)
    &&& forall|j: int| 0 <= j < n && #[trigger] r[j] && !v[j] ==> in_frontier(s, cs[j])
    &&& forall|k: int|
        0 <= k < s.frontier@.len() ==> g.in_bounds(#[trigger] s.frontier@[k].coordinate)
            && s.frontier@[k].manhattan_from_exit == manhattan(s.frontier@[k].coordinate, g.exit_location)
            && r[idx(g, s.frontier@[k].coordinate)]
}

/// The search's progress measure, compared lexicographically.
pub open spec fn progressed(g: &Grid, s: &SearchState, g1: &Grid, s1: &SearchState) -> bool {
    let n = g.cells@.len() as int;
    let u0 = n_unreached(s1.reached@);
    let u = n_unreached(s.reached@);
    let p0 = potential(g1.cells@, s1.reached@, n);
    let p = potential(g.cells@, s.reached@, n);
    ||| u == u0 && p == p0 && s.frontier@.len() == s1.frontier@.len()
    ||| u < u0
    ||| u == u0 && p < p0
}

proof fn lemma_coord_index(g: &Grid, j: int)
    requires
        g.wf(),
        0 <= j < g.cells@.len(),
    ensures
        idx(g, g.cells@[j].coordinate) == j,
        g.in_bounds(g.cells@[j].coordinate),
{
    let w = g.width as int;
    lemma_fundamental_div_mod(j, w);
    assert(g.cells@[j].coordinate == g.coord_at(j));
    assert(0 <= j % w < w) by {
        vstd::arithmetic::div_mod::lemma_mod_bound(j, w);
    }
    assert(0 <= j / w <= j) by {
        vstd::arithmetic::div_mod::lemma_div_pos_is_pos(j, w);
        vstd::arithmetic::div_mod::lemma_div_is_ordered_by_denominator(j, 1, w);
    }
    assert((j / w) * w == w * (j / w)) by (nonlinear_arith);
    assert(j / w < g.height) by (nonlinear_arith)
        requires
            j == w * (j / w) + j % w,
            0 <= j % w,
            j < w * g.height,
            w > 0,
    ;
}

proof fn lemma_idx(g: &Grid, c: Coordinate)
    requires
        g.wf(),
        g.in_bounds(c),
    ensures
        0 <= idx(g, c) < g.cells@.len(),
        g.cells@[idx(g, c)].coordinate == c,
{
    lemma_index_in_range(c, g.width as int, g.height as int);
    assert(g.height * g.width == g.width * g.height) by (nonlinear_arith);
    lemma_index_coord(c, g.width as int);
}

proof fn lemma_adjacent_symmetric(a: Coordinate, b: Coordinate)
    ensures
        adjacent(a, b) == adjacent(b, a),
{
}

/// Reached positions stay reached, and recorded costs do not rise.
pub open spec fn grows(ga: &Grid, sa: &SearchState, gb: &Grid, sb: &SearchState) -> bool {
    forall|j: int|
        0 <= j < ga.cells@.len() && #[trigger] sa.reached@[j] ==> sb.reached@[j] && gb.cells@[j].cost
            <= ga.cells@[j].cost
}

/// Neighbour `c` of cell `u`, where open, is reached at cost at most one
/// more than `u`'s.
pub open spec fn neighbour_done(g0: &Grid, g: &Grid, s: &SearchState, u: int, c: Coordinate) -> bool {
    g0.open_at(c) ==> s.reached@[idx(g, c)] && g.cells@[idx(g, c)].cost <= g.cells@[u].cost + 1
}

proof fn lemma_neighbour_kept(
    g0: &Grid,
    ga: &Grid,
    sa: &SearchState,
    gb: &Grid,
    sb: &SearchState,
    u: int,
    c: Coordinate,
)
    requires
        ga.wf(),
        ga.same_maze(g0),
        gb.same_maze(g0),
        0 <= u < ga.cells@.len(),
        ga.in_bounds(c),
        neighbour_done(g0, ga, sa, u, c),
        grows(ga, sa, gb, sb),
        gb.cells@[u] == ga.cells@[u],
    ensures
        neighbour_done(g0, gb, sb, u, c),
{
    lemma_idx(ga, c);
    if g0.open_at(c) {
        assert(sa.reached@[idx(ga, c)]);
    }
}

/// Offers neighbour `c` of the expanded cell `u` a route through `u`: a
/// neighbour that is neither wall nor entrance, and either unreached or
/// reached at a higher cost, takes `u` as parent and cost one more than
/// `u`'s, is taken out of the visited set and pushed on the frontier.
fn relax(g: &mut Grid, s: &mut SearchState, u: usize, c: Coordinate, Ghost(g0): Ghost<Grid>)
    requires
        inv_except(old(g), &g0, old(s), u as int),
        u < old(g).cells@.len(),
        old(s).visited@[u as int],
        old(g).in_bounds(c),
        adjacent(old(g).cells@[u as int].coordinate, c),
    ensures
        inv_except(final(g), &g0, final(s), u as int),
        final(g).cells@.len() == old(g).cells@.len(),
        final(s).visited@[u as int],
        final(g).cells@[u as int] == old(g).cells@[u as int],
        neighbour_done(&g0, final(g), final(s), u as int, c),
        grows(old(g), old(s), final(g), final(s)),
        progressed(final(g), final(s), old(g), old(s)),
{
    let ghost g1 = *g;
    let ghost s1 = *s;
    let ghost n = g.cells@.len() as int;
    proof {
        reveal(inv_except);
        lemma_idx(g, c);
        lemma_idx(g, g.entrance_location);
        lemma_idx(g, g.exit_location);
        lemma_coord_index(g, u as int);
        lemma_index_in_range(c, g.width as int, g.height as int);
    }
    let v = c.y * g.width + c.x;
    let cell = g.cells[v];
    if cell.cell_type == CellType::Wall || cell.cell_type == CellType::Entrance {
        return;
    }
    let cu = g.cells[u];
    assert(s.reached@[u as int]);
    proof {
        lemma_unreached_bound(s.reached@);
    }
    let tentative = cu.cost + 1;
    if !s.reached[v] || tentative < cell.cost {
        let h = manhattan_exec(g, c, g.exit_location);
        let updated = Cell {
            cell_type: cell.cell_type,
            coordinate: cell.coordinate,
            parent_coord: cu.coordinate,
            manhattan_from_exit: h,
            cost: tentative,
        };
        g.cells.set(v, updated);
        s.reached.set(v, true);
        s.visited.set(v, false);
        s.frontier.push(updated);
        proof {
            let vi = v as int;
            let e = g.entrance_index();
            assert(vi != e);
            assert(vi != u);
            assert(g.cells@[u as int] == g1.cells@[u as int]);
            lemma_adjacent_symmetric(cu.coordinate, c);
            assert(s.reached@ =~= s1.reached@.update(vi, true));
            if s1.reached@[vi] {
                assert(s.reached@ =~= s1.reached@);
                lemma_potential_update(g1.cells@, s1.reached@, g.cells@, s.reached@, vi, n);
            } else {
                lemma_unreached_mark(s1.reached@, vi);
                assert(s.reached@ =~= s1.reached@.update(vi, true));
            }
            assert forall|j: int| 0 <= j < n implies (#[trigger] g.cells@[j]).cell_type
                == g1.cells@[j].cell_type && g.cells@[j].coordinate == g1.cells@[j].coordinate by {
                if j != vi {
                    assert(g.cells@[j] == g1.cells@[j]);
                }
            }
            assert(g.same_maze(&g0));
            assert(g.width == g1.width && g.height == g1.height && g.entrance_location == g1.entrance_location);
            assert(g.cells@.len() == g1.cells@.len());
            assert(g.cells@[g.entrance_index()].cell_type == CellType::Entrance);
            assert(g.cells@[g.exit_index()].cell_type == CellType::Exit);
            assert(forall|j: int|
                0 <= j < g.cells@.len() ==> #[trigger] g.cells@[j].coordinate == g.coord_at(j));
            assert(g.wf());
            assert forall|j: int| 0 <= j < n && #[trigger] s.reached@[j] && j != e implies parent_ok(
                g,
                s.reached@,
                j,
            ) by {
                if j != vi {
                    assert(parent_ok(&g1, s1.reached@, j));
                    assert(g.cells@[j] == g1.cells@[j]);
                    let p = g1.cells@[j].parent_coord;
                    let pi = idx(g, p);
                    lemma_idx(&g1, p);
                    if pi == vi {
                        assert(s1.reached@[vi]);
                        assert(tentative < cell.cost);
                    } else {
                        assert(g.cells@[pi] == g1.cells@[pi]);
                    }
                } else {
                    assert(idx(g, cu.coordinate) == u);
                    assert(g.cells@[vi].coordinate == c);
                    assert(adjacent(c, cu.coordinate));
                    assert(s.reached@[u as int]);
                    assert(parent_ok(g, s.reached@, j));
                }
            }
            assert forall|j: int| 0 <= j < n && #[trigger] s.visited@[j] && j != u implies relaxed(
                &g0,
                g,
                s,
                j,
            ) by {
                assert(relaxed(&g0, &g1, &s1, j));
                assert forall|d: Coordinate|
                    #[trigger] g0.open_at(d) && adjacent(g.cells@[j].coordinate, d) implies s.reached@[idx(g, d)]
                        && g.cells@[idx(g, d)].cost <= g.cells@[j].cost + 1 by {
                    lemma_idx(&g1, d);
                    assert(j != vi);
                    assert(g.cells@[j] == g1.cells@[j]);
                    assert(s1.reached@[idx(&g1, d)]);
                    if idx(g, d) != vi {
                        assert(g.cells@[idx(g, d)] == g1.cells@[idx(g, d)]);
                    }
                }
            }
            assert forall|j: int| 0 <= j < n && #[trigger] s.reached@[j] && !s.visited@[j] implies in_frontier(
                s,
                g.cells@[j],
            ) by {
                if j == vi {
                    assert(s.frontier@[s.frontier@.len() - 1] == updated);
                } else {
                    assert(in_frontier(&s1, g1.cells@[j]));
                    let k = choose|k: int|
                        0 <= k < s1.frontier@.len() && (#[trigger] s1.frontier@[k]).coordinate
                            == g1.cells@[j].coordinate && s1.frontier@[k].cost == g1.cells@[j].cost;
                    assert(s.frontier@[k] == s1.frontier@[k]);
                }
            }
            assert forall|k: int| 0 <= k < s.frontier@.len() implies g.in_bounds(
                #[trigger] s.frontier@[k].coordinate,
            ) && s.frontier@[k].manhattan_from_exit == manhattan(s.frontier@[k].coordinate, g.exit_location)
                && s.reached@[idx(g, s.frontier@[k].coordinate)] by {
                if k < s1.frontier@.len() {
                    assert(s.frontier@[k] == s1.frontier@[k]);
                    lemma_idx(&g1, s1.frontier@[k].coordinate);
                    assert(s1.reached@[idx(&g1, s1.frontier@[k].coordinate)]);
                }
            }
        }
    }
}

proof fn lemma_manhattan_walk(g0: &Grid, q: Seq<Coordinate>, k: int, t: Coordinate)
    requires
        g0.is_walk(q),
        0 <= k < q.len(),
    ensures
        manhattan(q[k], t) <= manhattan(q.last(), t) + (q.len() - 1 - k),
    decreases q.len() - k,
{
    if k < q.len() - 1 {
        assert(adjacent(q[k], q[k + 1]));
        lemma_manhattan_walk(g0, q, k + 1, t);
    }
}

/// Along a walk from the entrance to a cell outside the visited set, some
/// position is reached, not visited, and recorded at a cost no larger than
/// its distance along the walk.
proof fn lemma_first_open(g: &Grid, g0: &Grid, s: &SearchState, q: Seq<Coordinate>) -> (k: int)
    requires
        inv_except(g, g0, s, -1),
        g0.is_walk_to(q, q.last()),
        !s.visited@[idx(g, q.last())],
    ensures
        0 <= k < q.len(),
        0 <= idx(g, q[k]) < g.cells@.len(),
        s.reached@[idx(g, q[k])],
        !s.visited@[idx(g, q[k])],
        g.cells@[idx(g, q[k])].cost <= k,
        g.cells@[idx(g, q[k])].coordinate == q[k],
    decreases q.len(),
{
    reveal(inv_except);
    let m = q.len() - 1;
    assert(g0.open_at(q[m]));
    lemma_idx(g, q[m]);
    if m == 0 {
        lemma_idx(g, g.entrance_location);
        0
    } else {
        let p = q.drop_last();
        assert(g0.open_at(q[m - 1]));
        assert(p[m - 1] == q[m - 1]);
        lemma_idx(g, q[m - 1]);
        let pi = idx(g, q[m - 1]);
        assert(g0.is_walk_to(p, p.last())) by {
            assert forall|i: int| 0 <= i < p.len() implies g0.open_at(#[trigger] p[i]) by {
                assert(p[i] == q[i]);
                assert(g0.open_at(q[i]));
            }
            assert forall|i: int| 0 <= i < p.len() - 1 implies adjacent(#[trigger] p[i], p[i + 1]) by {
                assert(p[i] == q[i]);
                assert(adjacent(q[i], q[i + 1]));
            }
        }
        if !s.visited@[pi] {
            let k = lemma_first_open(g, g0, s, p);
            assert(p[k] == q[k]);
            k
        } else {
            assert(lower_bound(g0, g.cells@[pi].coordinate, g.cells@[pi].cost as int));
            assert(g0.is_walk_to(p, g.cells@[pi].coordinate));
            assert(relaxed(g0, g, s, pi));
            assert(adjacent(q[m - 1], q[m]));
            m
        }
    }
}

/// A fresh frontier entry of least priority holds a cost that no walk to
/// its cell undercuts.
proof fn lemma_pop_lower_bound(g: &Grid, g0: &Grid, s: &SearchState, m: int, q: Seq<Coordinate>)
    requires
        inv_except(g, g0, s, -1),
        0 <= m < s.frontier@.len(),
        forall|k: int| 0 <= k < s.frontier@.len() ==> priority(s.frontier@[m]) <= priority(#[trigger] s.frontier@[k]),
        !s.visited@[idx(g, s.frontier@[m].coordinate)],
        s.frontier@[m].cost == g.cells@[idx(g, s.frontier@[m].coordinate)].cost,
        g0.is_walk_to(q, s.frontier@[m].coordinate),
    ensures
        s.frontier@[m].cost <= q.len() - 1,
{
    reveal(inv_except);
    let e = s.frontier@[m];
    let k = lemma_first_open(g, g0, s, q);
    let vi = idx(g, q[k]);
    assert(s.reached@[vi] && !s.visited@[vi]);
    assert(in_frontier(s, g.cells@[vi]));
    let k2 = choose|k2: int|
        0 <= k2 < s.frontier@.len() && (#[trigger] s.frontier@[k2]).coordinate == g.cells@[vi].coordinate
            && s.frontier@[k2].cost == g.cells@[vi].cost;
    assert(priority(e) <= priority(s.frontier@[k2]));
    lemma_manhattan_walk(g0, q, k, g.exit_location);
}

proof fn lemma_inv_shape(g: &Grid, g0: &Grid, s: &SearchState, u: int)
    requires
        inv_except(g, g0, s, u),
    ensures
        g.wf(),
        g.same_maze(g0),
        s.reached@.len() == g.cells@.len(),
        s.visited@.len() == g.cells@.len(),
{
    reveal(inv_except);
}

proof fn lemma_close_expansion(g: &Grid, g0: &Grid, s: &SearchState, u: int)
    requires
        inv_except(g, g0, s, u),
        relaxed(g0, g, s, u),
    ensures
        inv_except(g, g0, s, -1),
{
    reveal(inv_except);
}

/// Relaxes the up to four neighbours of the expanded cell `u` that lie in
/// the grid.
fn expand(g: &mut Grid, s: &mut SearchState, u: usize, Ghost(g0): Ghost<Grid>)
    requires
        inv_except(old(g), &g0, old(s), u as int),
        u < old(g).cells@.len(),
        old(s).visited@[u as int],
    ensures
        inv_except(final(g), &g0, final(s), -1),
        final(g).cells@.len() == old(g).cells@.len(),
        progressed(final(g), final(s), old(g), old(s)),
{
    let cu = g.cells[u];
    let cx = cu.coordinate.x;
    let cy = cu.coordinate.y;
    let w = g.width;
    let h = g.height;
    proof {
        lemma_inv_shape(g, &g0, s, u as int);
        lemma_coord_index(g, u as int);
    }
    let ghost ui = u as int;
    let ghost g_0 = *g;
    let ghost s_0 = *s;
    let left = Coordinate { x: if cx > 0 { cx - 1 } else { 0 }, y: cy };
    if cx > 0 {
        relax(g, s, u, left, Ghost(g0));
    }
    let ghost g_1 = *g;
    let ghost s_1 = *s;
    proof {
        lemma_inv_shape(&g_1, &g0, &s_1, u as int);
    }
    let right = Coordinate { x: if cx + 1 < w { cx + 1 } else { 0 }, y: cy };
    if cx + 1 < w {
        relax(g, s, u, right, Ghost(g0));
        proof {
            lemma_inv_shape(g, &g0, s, ui);
            if cx > 0 {
                lemma_neighbour_kept(&g0, &g_1, &s_1, g, s, ui, left);
            }
        }
    }
    let ghost g_2 = *g;
    let ghost s_2 = *s;
    proof {
        lemma_inv_shape(&g_2, &g0, &s_2, u as int);
    }
    let up = Coordinate { x: cx, y: if cy > 0 { cy - 1 } else { 0 } };
    if cy > 0 {
        relax(g, s, u, up, Ghost(g0));
        proof {
            lemma_inv_shape(g, &g0, s, ui);
            if cx > 0 {
                lemma_neighbour_kept(&g0, &g_2, &s_2, g, s, ui, left);
            }
            if cx + 1 < w {
                lemma_neighbour_kept(&g0, &g_2, &s_2, g, s, ui, right);
            }
        }
    }
    let ghost g_3 = *g;
    let ghost s_3 = *s;
    proof {
        lemma_inv_shape(&g_3, &g0, &s_3, u as int);
    }
    let down = Coordinate { x: cx, y: if cy + 1 < h { cy + 1 } else { 0 } };
    if cy + 1 < h {
        relax(g, s, u, down, Ghost(g0));
        proof {
            lemma_inv_shape(g, &g0, s, ui);
            if cx > 0 {
                lemma_neighbour_kept(&g0, &g_3, &s_3, g, s, ui, left);
            }
            if cx + 1 < w {
                lemma_neighbour_kept(&g0, &g_3, &s_3, g, s, ui, right);
            }
            if cy > 0 {
                lemma_neighbour_kept(&g0, &g_3, &s_3, g, s, ui, up);
            }
        }
    }
    proof {
        assert forall|d: Coordinate| #[trigger] g0.open_at(d) && adjacent(g.cells@[ui].coordinate, d) implies s.reached@[
            idx(g, d)] && g.cells@[idx(g, d)].cost <= g.cells@[ui].cost + 1 by {
            if d.x + 1 == cx && d.y == cy {
                assert(d == left);
            } else if d.x == cx + 1 && d.y == cy {
                assert(d == right);
            } else if d.y + 1 == cy && d.x == cx {
                assert(d == up);
            } else {
                assert(d == down);
            }
        }
        assert(relaxed(&g0, g, s, ui));
        lemma_close_expansion(g, &g0, s, ui);
    }
}

/// What a finished search leaves for backtracking: the exit reached at a
/// cost that no walk undercuts, and parent links down to the entrance.
pub open spec fn solved(g: &Grid, g0: &Grid, r: Seq<bool>) -> bool {
    let n = g.cells@.len();
    &&& r.len() == n
    &&& r[g.entrance_index()]
    &&& r[g.exit_index()]
    &&& g.cells@[g.entrance_index()].cost == 0
    &&& lower_bound(g0, g.exit_location, g.cells@[g.exit_index()].cost as int)
    &&& forall|j: int| 0 <= j < n && #[trigger] r[j] ==> g.cells@[j].cell_type != CellType::Wall
    &&& forall|j: int| 0 <= j < n && #[trigger] r[j] && j != g.entrance_index() ==> parent_ok(g, r, j)
}

proof fn lemma_frontier_remove(fr: Seq<Cell>, m: int, c: Cell)
    requires
        0 <= m < fr.len(),
        exists|k: int| 0 <= k < fr.len() && (#[trigger] fr[k]).coordinate == c.coordinate && fr[k].cost == c.cost,
        !(fr[m].coordinate == c.coordinate && fr[m].cost == c.cost),
    ensures
        exists|k: int|
            0 <= k < fr.remove(m).len() && (#[trigger] fr.remove(m)[k]).coordinate == c.coordinate
                && fr.remove(m)[k].cost == c.cost,
{
    let k = choose|k: int| 0 <= k < fr.len() && (#[trigger] fr[k]).coordinate == c.coordinate && fr[k].cost == c.cost;
    if k < m {
        assert(fr.remove(m)[k] == fr[k]);
    } else {
        assert(fr.remove(m)[k - 1] == fr[k]);
    }
}

/// Taking entry `m` off the frontier, and adding its cell to the visited
/// set when `visit` holds, keeps the invariant (save relaxing that cell).
proof fn lemma_pop(g: &Grid, g0: &Grid, sb: &SearchState, s: &SearchState, m: int, visit: bool)
    requires
        inv_except(g, g0, sb, -1),
        0 <= m < sb.frontier@.len(),
        s.frontier@ == sb.frontier@.remove(m),
        s.reached@ == sb.reached@,
        visit ==> {
            let u = idx(g, sb.frontier@[m].coordinate);
            &&& s.visited@ == sb.visited@.update(u, true)
            &&& u != g.exit_index()
            &&& lower_bound(g0, sb.frontier@[m].coordinate, g.cells@[u].cost as int)
        },
        !visit ==> s.visited@ == sb.visited@ && (sb.frontier@[m].cost != g.cells@[idx(
            g,
            sb.frontier@[m].coordinate,
        )].cost || sb.visited@[idx(g, sb.frontier@[m].coordinate)]),
    ensures
        inv_except(g, g0, s, if visit { idx(g, sb.frontier@[m].coordinate) } else { -1 }),
{
    reveal(inv_except);
    let top = sb.frontier@[m];
    let u = idx(g, top.coordinate);
    lemma_idx(g, top.coordinate);
    let n = g.cells@.len() as int;
    assert forall|j: int| 0 <= j < n && #[trigger] s.reached@[j] && !s.visited@[j] implies in_frontier(
        s,
        g.cells@[j],
    ) by {
        assert(sb.reached@[j]);
        lemma_coord_index(g, j);
        lemma_frontier_remove(sb.frontier@, m, g.cells@[j]);
    }
    assert forall|k: int| 0 <= k < s.frontier@.len() implies g.in_bounds(#[trigger] s.frontier@[k].coordinate)
        && s.frontier@[k].manhattan_from_exit == manhattan(s.frontier@[k].coordinate, g.exit_location)
        && s.reached@[idx(g, s.frontier@[k].coordinate)] by {
        if k < m {
            assert(s.frontier@[k] == sb.frontier@[k]);
        } else {
            assert(s.frontier@[k] == sb.frontier@[k + 1]);
        }
    }
    if visit {
        assert(g.in_bounds(top.coordinate));
        assert(sb.reached@[u]);
        assert(g.cells@[u].coordinate == top.coordinate);
        assert forall|j: int| 0 <= j < n && #[trigger] s.visited@[j] implies s.reached@[j] by {
            if j != u {
                assert(sb.visited@[j]);
            }
        }
        lemma_idx(g, g.exit_location);
        assert(!s.visited@[g.exit_index()]);
        assert forall|j: int| 0 <= j < n && #[trigger] s.visited@[j] implies lower_bound(
            g0,
            g.cells@[j].coordinate,
            g.cells@[j].cost as int,
        ) by {
            if j != u {
                assert(sb.visited@[j]);
            }
        }
        assert forall|j: int| 0 <= j < n && #[trigger] s.visited@[j] && j != u implies relaxed(g0, g, s, j) by {
            assert(sb.visited@[j]);
            assert(relaxed(g0, g, sb, j));
        }
    } else {
        assert forall|j: int| 0 <= j < n && #[trigger] s.visited@[j] implies relaxed(g0, g, s, j) by {
            assert(relaxed(g0, g, sb, j));
        }
    }
}

/// With the frontier empty, no walk reaches the exit.
proof fn lemma_no_walk(g: &Grid, g0: &Grid, s: &SearchState)
    requires
        inv_except(g, g0, s, -1),
        s.frontier@.len() == 0,
    ensures
        forall|q: Seq<Coordinate>| !g0.is_walk_to(q, g0.exit_location),
{
    reveal(inv_except);
    assert forall|q: Seq<Coordinate>| !g0.is_walk_to(q, g0.exit_location) by {
        if g0.is_walk_to(q, g0.exit_location) {
            lemma_idx(g, g.exit_location);
            let k = lemma_first_open(g, g0, s, q);
            let vi = idx(g, q[k]);
            assert(s.reached@[vi] && !s.visited@[vi]);
            assert(in_frontier(s, g.cells@[vi]));
        }
    }
}

proof fn lemma_solved(g: &Grid, g0: &Grid, s: &SearchState)
    requires
        inv_except(g, g0, s, -1),
        s.reached@[g.exit_index()],
        lower_bound(g0, g.exit_location, g.cells@[g.exit_index()].cost as int),
    ensures
        solved(g, g0, s.reached@),
{
    reveal(inv_except);
}

/// The index of a frontier entry of least priority.
fn min_index(fr: &Vec<Cell>) -> (m: usize)
    requires
        fr@.len() > 0,
    ensures
        m < fr@.len(),
        forall|k: int| 0 <= k < fr@.len() ==> priority(fr@[m as int]) <= priority(#[trigger] fr@[k]),
{
    let mut m: usize = 0;
    let mut best: u128 = fr[0].cost as u128 + fr[0].manhattan_from_exit as u128;
    let mut i: usize = 1;
    while i < fr.len()
        invariant
            1 <= i <= fr@.len(),
            m < i,
            best == priority(fr@[m as int]),
            forall|k: int| 0 <= k < i ==> priority(fr@[m as int]) <= priority(#[trigger] fr@[k]),
        decreases fr@.len() - i,
    {
        let p = fr[i].cost as u128 + fr[i].manhattan_from_exit as u128;
        if p < best {
            m = i;
            best = p;
        }
        i = i + 1;
    }
    m
}

fn all_false(n: usize) -> (v: Vec<bool>)
    ensures
        v@.len() == n,
        forall|i: int| 0 <= i < n ==> !v@[i],
{
    let mut v: Vec<bool> = Vec::new();
    let mut i: usize = 0;
    while i < n
        invariant
            i <= n,
            v@.len() == i,
            forall|k: int| 0 <= k < i ==> !v@[k],
        decreases n - i,
    {
        v.push(false);
        i = i + 1;
    }
    v
}

/// A* from the entrance, ordered by cost plus Manhattan distance to the
/// exit. Returns whether the exit was reached, with the reached flags.
fn a_star(g: &mut Grid) -> (res: (bool, Vec<bool>))
    requires
        old(g).wf(),
    ensures
        final(g).wf(),
        final(g).same_maze(old(g)),
        res.1@.len() == old(g).cells@.len(),
        res.0 ==> solved(final(g), old(g), res.1@),
        !res.0 ==> forall|q: Seq<Coordinate>| !old(g).is_walk_to(q, old(g).exit_location),
{
    let ghost g0 = *g;
    let n = g.cells.len();
    proof {
        lemma_idx(g, g.entrance_location);
        lemma_idx(g, g.exit_location);
    }
    let e = g.entrance_location.y * g.width + g.entrance_location.x;
    let xi = g.exit_location.y * g.width + g.exit_location.x;
    let h = manhattan_exec(g, g.entrance_location, g.exit_location);
    let ce = g.cells[e];
    let start = Cell {
        cell_type: ce.cell_type,
        coordinate: ce.coordinate,
        parent_coord: ce.parent_coord,
        manhattan_from_exit: h,
        cost: 0,
    };
    g.cells.set(e, start);
    let mut reached = all_false(n);
    proof {
        lemma_unreached_none(reached@);
        lemma_unreached_mark(reached@, e as int);
    }
    reached.set(e, true);
    let visited = all_false(n);
    let mut frontier: Vec<Cell> = Vec::new();
    frontier.push(start);
    let mut s = SearchState { reached, visited, frontier };
    proof {
        reveal(inv_except);
        assert forall|j: int| 0 <= j < n implies (#[trigger] g.cells@[j]).cell_type == g0.cells@[j].cell_type
            && g.cells@[j].coordinate == g0.cells@[j].coordinate by {
            if j != e {
                assert(g.cells@[j] == g0.cells@[j]);
            }
        }
        assert(g.wf());
        assert(s.frontier@[0] == start);
        assert(in_frontier(&s, g.cells@[e as int]));
        assert forall|j: int| 0 <= j < n && #[trigger] s.reached@[j] implies j == e by {
            if j != e {
                assert(!reached@[j]);
            }
        }
        assert(inv_except(g, &g0, &s, -1));
    }
    while s.frontier.len() > 0
        invariant
            inv_except(g, &g0, &s, -1),
            g.cells@.len() == n,
            g0.wf(),
            g0 == *old(g),
            e == g.entrance_index(),
            xi == g.exit_index(),
        decreases n_unreached(s.reached@), potential(g.cells@, s.reached@, n as int), s.frontier@.len(),
    {
        proof {
            lemma_inv_shape(g, &g0, &s, -1);
        }
        let m = min_index(&s.frontier);
        let ghost sb = s;
        let top = s.frontier.remove(m);
        proof {
            reveal(inv_except);
            assert(sb.frontier@[m as int] == top);
            assert(g.in_bounds(top.coordinate));
            lemma_idx(g, top.coordinate);
        }
        let u = top.coordinate.y * g.width + top.coordinate.x;
        let cur = g.cells[u];
        if top.cost != cur.cost || s.visited[u] {
            proof {
                lemma_pop(g, &g0, &sb, &s, m as int, false);
            }
            continue;
        }
        proof {
            assert forall|q: Seq<Coordinate>| #[trigger] g0.is_walk_to(q, top.coordinate) implies cur.cost
                <= q.len() - 1 by {
                lemma_pop_lower_bound(g, &g0, &sb, m as int, q);
            }
        }
        if u == xi {
            proof {
                reveal(inv_except);
                lemma_idx(g, g.exit_location);
                assert(g.cells@[u as int].coordinate == g.exit_location);
                assert(top.coordinate == g.exit_location);
                lemma_solved(g, &g0, &sb);
            }
            return (true, s.reached);
        }
        s.visited.set(u, true);
        proof {
            lemma_pop(g, &g0, &sb, &s, m as int, true);
        }
        expand(g, &mut s, u, Ghost(g0));
    }
    proof {
        lemma_no_walk(g, &g0, &s);
        lemma_inv_shape(g, &g0, &s, -1);
    }
    (false, s.reached)
}

/// Follows parent links from the exit back to the entrance; the result runs
/// from the entrance to the exit.
fn backtrack(g: &Grid, reached: &Vec<bool>, Ghost(g0): Ghost<Grid>) -> (path: Vec<Coordinate>)
    requires
        g.wf(),
        g.same_maze(&g0),
        solved(g, &g0, reached@),
    ensures
        g0.is_walk_to(path@, g0.exit_location),
        path@.len() <= g.cells@[g.exit_index()].cost + 1,
{
    let ghost n = g.cells@.len();
    proof {
        lemma_idx(g, g.entrance_location);
        lemma_idx(g, g.exit_location);
    }
    let w = g.width;
    let e = g.entrance_location.y * w + g.entrance_location.x;
    let xi = g.exit_location.y * w + g.exit_location.x;
    let mut back: Vec<Coordinate> = Vec::new();
    back.push(g.exit_location);
    let mut cur: usize = xi;
    while cur != e
        invariant
            g.wf(),
            g.same_maze(&g0),
            solved(g, &g0, reached@),
            w == g.width,
            e == g.entrance_index(),
            xi == g.exit_index(),
            n == g.cells@.len(),
            cur < n,
            reached@[cur as int],
            back@.len() >= 1,
            back@[0] == g.exit_location,
            back@.last() == g.cells@[cur as int].coordinate,
            forall|i: int| 0 <= i < back@.len() ==> g0.open_at(#[trigger] back@[i]),
            forall|i: int| 0 <= i < back@.len() - 1 ==> adjacent(#[trigger] back@[i], back@[i + 1]),
            back@.len() - 1 + g.cells@[cur as int].cost <= g.cells@[xi as int].cost,
        decreases g.cells@[cur as int].cost,
    {
        let p = g.cells[cur].parent_coord;
        proof {
            assert(parent_ok(g, reached@, cur as int));
            lemma_idx(g, p);
        }
        let pi = p.y * w + p.x;
        let ghost old_back = back@;
        back.push(p);
        proof {
            let pj = pi as int;
            assert(reached@[pj]);
            assert(g.cells@[pj].cell_type != CellType::Wall);
            assert(g0.cells@[pj].cell_type == g.cells@[pj].cell_type);
            assert forall|i: int| 0 <= i < back@.len() implies g0.open_at(#[trigger] back@[i]) by {
                if i < old_back.len() {
                    assert(back@[i] == old_back[i]);
                }
            }
            assert forall|i: int| 0 <= i < back@.len() - 1 implies adjacent(#[trigger] back@[i], back@[i + 1]) by {
                if i < old_back.len() - 1 {
                    assert(back@[i] == old_back[i] && back@[i + 1] == old_back[i + 1]);
                }
            }
        }
        cur = pi;
    }
    let mut path: Vec<Coordinate> = Vec::new();
    let mut i: usize = back.len();
    while i > 0
        invariant
            i <= back@.len(),
            path@.len() == back@.len() - i,
            forall|k: int| 0 <= k < path@.len() ==> #[trigger] path@[k] == back@[back@.len() - 1 - k],
        decreases i,
    {
        i = i - 1;
        path.push(back[i]);
    }
    proof {
        let b = back@;
        let len = b.len() as int;
        assert forall|k: int| 0 <= k < path@.len() implies g0.open_at(#[trigger] path@[k]) by {
            assert(g0.open_at(b[len - 1 - k]));
        }
        assert forall|k: int| 0 <= k < path@.len() - 1 implies adjacent(#[trigger] path@[k], path@[k + 1]) by {
            assert(path@[k + 1] == b[len - 1 - (k + 1)]);
            assert(adjacent(b[len - 2 - k], b[len - 1 - k]));
            lemma_adjacent_symmetric(b[len - 2 - k], b[len - 1 - k]);
        }
        assert(path@[0] == b.last());
        assert(path@.last() == b[0]);
    }
    path
}

/// Searches the grid and returns a shortest route from the
/// entrance to the exit, or `NoPathFound` exactly when there is none. The
/// grid keeps its shape; the search records costs and parents in it, and
/// the exit's cost is the route's number of steps.
pub fn solve_grid(g: &mut Grid) -> (r: Result<Vec<Coordinate>, SolveError>)
    requires
        old(g).wf(),
    ensures
        final(g).wf(),
        final(g).same_maze(old(g)),
        match r {
            Ok(path) => {
                &&& old(g).is_walk_to(path@, old(g).exit_location)
                &&& forall|q: Seq<Coordinate>| #[trigger]
                    old(g).is_walk_to(q, old(g).exit_location) ==> path@.len() <= q.len()
                &&& final(g).cells@[final(g).exit_index()].cost == path@.len() - 1
            },
            Err(e) => e == SolveError::NoPathFound && forall|q: Seq<Coordinate>|
                !old(g).is_walk_to(q, old(g).exit_location),
        },
{
    let ghost g0 = *g;
    let (found, reached) = a_star(g);
    if !found {
        return Err(SolveError::NoPathFound);
    }
    let path = backtrack(g, &reached, Ghost(g0));
    proof {
        let c = g.cells@[g.exit_index()].cost as int;
        assert(lower_bound(&g0, g.exit_location, c));
        assert(g0.is_walk_to(path@, g.exit_location));
        assert(c <= path@.len() - 1);
    }
    Ok(path)
}

/// Builds the grid of a maze text and returns a shortest route from its
/// entrance to its exit: `ParseError` exactly when the text is no valid
/// maze, `NoPathFound` exactly when it is one without a route.
pub fn solve(maze: &[char]) -> (r: Result<Vec<Coordinate>, SolveError>)
    ensures
        match r {
            Ok(path) => is_valid_maze(maze_rows(maze@)) && is_shortest_route(maze_rows(maze@), path@),
            Err(e) => {
                ||| e == SolveError::ParseError && !is_valid_maze(maze_rows(maze@))
                ||| e == SolveError::NoPathFound && is_valid_maze(maze_rows(maze@)) && forall|q: Seq<Coordinate>|
                    !is_maze_route(maze_rows(maze@), q)
            },
        },
{
    let ghost rows = maze_rows(maze@);
    let mut g = match Grid::new(maze) {
        Ok(g) => g,
        Err(e) => {
            return Err(e);
        },
    };
    let ghost g0 = g;
    let r = solve_grid(&mut g);
    proof {
        assert forall|q: Seq<Coordinate>| #[trigger] is_maze_route(rows, q) == g0.is_walk_to(q, g0.exit_location) by {
            lemma_walks_match(&g0, rows, q);
        }
    }
    r
}

/// Manhattan distance, computed without overflow inside the grid.
fn manhattan_exec(g: &Grid, a: Coordinate, b: Coordinate) -> (d: usize)
    requires
        g.wf(),
        g.in_bounds(a),
        g.in_bounds(b),
    ensures
        d == manhattan(a, b),
{
    let n = g.cells.len();
    let dx = if a.x < b.x { b.x - a.x } else { a.x - b.x };
    let dy = if a.y < b.y { b.y - a.y } else { a.y - b.y };
    assert(dx + dy < n) by (nonlinear_arith)
        requires
            dx < g.width,
            dy < g.height,
            n == g.width * g.height,
    ;
    dx + dy
}

} // verus!
