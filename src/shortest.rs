use vstd::prelude::*;
use crate::cell::Coordinate;
use crate::grid::{
    adjacent, is_maze_route, is_opening_number, is_shortest_route, lemma_index_coord,
    lemma_opening_unique, open_in, Grid,
};

verus! {

/// A shortest route passes the entrance only at its start and the exit only
/// at its end.
pub proof fn lemma_shortest_route_ends_once(rows: Seq<Seq<char>>, q: Seq<Coordinate>)
    requires
        is_shortest_route(rows, q),
    ensures
        is_opening_number(rows, q[0], 0),
        is_opening_number(rows, q.last(), 1),
        forall|i: int| 0 < i < q.len() ==> #[trigger] q[i] != q[0],
        forall|i: int| 0 <= i < q.len() - 1 ==> #[trigger] q[i] != q.last(),
{
    assert forall|i: int| 0 < i < q.len() implies #[trigger] q[i] != q[0] by {
        if q[i] == q[0] {
            let q2 = q.subrange(i, q.len() as int);
            assert forall|k: int| 0 <= k < q2.len() implies open_in(rows, #[trigger] q2[k]) by {
                assert(q2[k] == q[i + k]);
            }
            assert forall|k: int| 0 <= k < q2.len() - 1 implies adjacent(#[trigger] q2[k], q2[k + 1]) by {
                assert(q2[k] == q[i + k] && q2[k + 1] == q[i + k + 1]);
            }
            assert(is_maze_route(rows, q2));
        }
    }
    assert forall|i: int| 0 <= i < q.len() - 1 implies #[trigger] q[i] != q.last() by {
        if q[i] == q.last() {
            let q2 = q.subrange(0, i + 1);
            assert forall|k: int| 0 <= k < q2.len() implies open_in(rows, #[trigger] q2[k]) by {
                assert(q2[k] == q[k]);
            }
            assert forall|k: int| 0 <= k < q2.len() - 1 implies adjacent(#[trigger] q2[k], q2[k + 1]) by {
                assert(q2[k] == q[k] && q2[k + 1] == q[k + 1]);
            }
            assert(is_maze_route(rows, q2));
        }
    }
}

/// All shortest routes of a maze have the same length, so two solves of the
/// same maze text return routes of equal length.
pub proof fn lemma_shortest_routes_same_length(rows: Seq<Seq<char>>, p: Seq<Coordinate>, q: Seq<Coordinate>)
    requires
        is_shortest_route(rows, p),
        is_shortest_route(rows, q),
    ensures
        p.len() == q.len(),
{
}

/// Two grids built from the same maze text agree on their dimensions, their
/// entrance and exit, and the type and coordinate of every cell.
pub proof fn lemma_parse_deterministic(g1: &Grid, g2: &Grid, rows: Seq<Seq<char>>)
    requires
        g1.models(rows),
        g2.models(rows),
    ensures
        g1.same_maze(g2),
{
    let w = g1.width as int;
    lemma_opening_unique(rows, g1.entrance_index(), g2.entrance_index());
    lemma_opening_unique(rows, g1.exit_index(), g2.exit_index());
    lemma_index_coord(g1.entrance_location, w);
    lemma_index_coord(g2.entrance_location, w);
    lemma_index_coord(g1.exit_location, w);
    lemma_index_coord(g2.exit_location, w);
}

} // verus!
