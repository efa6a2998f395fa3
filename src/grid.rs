use vstd::prelude::*;
use vstd::arithmetic::div_mod::lemma_fundamental_div_mod_converse;
use crate::cell::{Cell, CellType, Coordinate};
use crate::SolveError;

verus! {

/// The two characters that make up a maze: `'-'` is open, `'#'` is wall.
pub open spec fn is_symbol(c: char) -> bool {
    c == '-' || c == '#'
}

/// Reads text left to right: rows already closed by a newline, and the row
/// being read. Characters other than the two symbols and the newline are
/// dropped; a newline that closes an empty row closes nothing.
pub open spec fn scan(t: Seq<char>) -> (Seq<Seq<char>>, Seq<char>)
    decreases t.len(),
{
    if t.len() == 0 {
        (seq![], seq![])
    } else {
        let prev = scan(t.drop_last());
        let c = t.last();
        if c == '\n' {
            if prev.1.len() > 0 {
                (prev.0.push(prev.1), seq![])
            } else {
                prev
            }
        } else if is_symbol(c) {
            (prev.0, prev.1.push(c))
        } else {
            prev
        }
    }
}

/// The rows of a maze text, top to bottom, each holding only its symbols.
pub open spec fn maze_rows(t: Seq<char>) -> Seq<Seq<char>> {
    let s = scan(t);
    if s.1.len() > 0 {
        s.0.push(s.1)
    } else {
        s.0
    }
}

/// At least one row, and all rows of the same, non-zero, length.
pub open spec fn is_rectangular(rows: Seq<Seq<char>>) -> bool {
    &&& rows.len() > 0
    &&& rows[0].len() > 0
    &&& forall|i: int| 0 <= i < rows.len() ==> #[trigger] rows[i].len() == rows[0].len()
}

pub open spec fn row_width(rows: Seq<Seq<char>>) -> int {
    rows[0].len() as int
}

pub open spec fn n_cells(rows: Seq<Seq<char>>) -> int {
    rows.len() * row_width(rows)
}

/// The symbol at row-major position `j`.
pub open spec fn symbol_at(rows: Seq<Seq<char>>, j: int) -> char {
    rows[j / row_width(rows)][j % row_width(rows)]
}

pub open spec fn on_boundary(w: int, h: int, x: int, y: int) -> bool {
    x == 0 || y == 0 || x == w - 1 || y == h - 1
}

/// An open position on the outer edge of the maze.
pub open spec fn is_opening(rows: Seq<Seq<char>>, j: int) -> bool {
    let w = row_width(rows);
    symbol_at(rows, j) == '-' && on_boundary(w, rows.len() as int, j % w, j / w)
}

/// How many openings come before row-major position `j`.
pub open spec fn openings_before(rows: Seq<Seq<char>>, j: int) -> nat
    decreases j,
{
    if j <= 0 {
        0
    } else {
        openings_before(rows, j - 1) + if is_opening(rows, j - 1) {
            1nat
        } else {
            0nat
        }
    }
}

/// The maze text can be built into a grid: it is rectangular and has at
/// least two openings.
pub open spec fn is_valid_maze(rows: Seq<Seq<char>>) -> bool {
    is_rectangular(rows) && openings_before(rows, n_cells(rows)) >= 2
}

/// The type of the cell at row-major position `j`: the first opening is the
/// entrance, every later one an exit.
pub open spec fn cell_type_at(rows: Seq<Seq<char>>, j: int) -> CellType {
    if symbol_at(rows, j) == '#' {
        CellType::Wall
    } else if is_opening(rows, j) {
        if openings_before(rows, j) == 0 {
            CellType::Entrance
        } else {
            CellType::Exit
        }
    } else {
        CellType::Path
    }
}

/// Row-major position of a coordinate in a grid `w` cells wide.
pub open spec fn index_of(c: Coordinate, w: int) -> int {
    c.y * w + c.x
}

/// Total number of symbols in `rows`.
pub open spec fn total_len(rows: Seq<Seq<char>>) -> nat
    decreases rows.len(),
{
    if rows.len() == 0 {
        0
    } else {
        total_len(rows.drop_last()) + rows.last().len()
    }
}

proof fn lemma_scan_len(t: Seq<char>)
    ensures
        total_len(scan(t).0) + scan(t).1.len() <= t.len(),
    decreases t.len(),
{
    if t.len() > 0 {
        lemma_scan_len(t.drop_last());
        let prev = scan(t.drop_last());
        if t.last() == '\n' && prev.1.len() > 0 {
            assert(prev.0.push(prev.1).drop_last() =~= prev.0);
        }
    }
}

proof fn lemma_maze_rows_len(t: Seq<char>)
    ensures
        total_len(maze_rows(t)) <= t.len(),
{
    lemma_scan_len(t);
    let s = scan(t);
    if s.1.len() > 0 {
        assert(s.0.push(s.1).drop_last() =~= s.0);
    }
}

proof fn lemma_total_len_uniform(rows: Seq<Seq<char>>, w: int)
    requires
        forall|i: int| 0 <= i < rows.len() ==> #[trigger] rows[i].len() == w,
    ensures
        total_len(rows) == rows.len() * w,
    decreases rows.len(),
{
    if rows.len() > 0 {
        let r = rows.drop_last();
        assert forall|i: int| 0 <= i < r.len() implies #[trigger] r[i].len() == w by {
            assert(r[i] == rows[i]);
        }
        lemma_total_len_uniform(r, w);
        assert(rows.len() * w == r.len() * w + w) by (nonlinear_arith)
            requires
                rows.len() == r.len() + 1,
        ;
    }
}

proof fn lemma_openings_monotone(rows: Seq<Seq<char>>, a: int, b: int)
    requires
        a <= b,
    ensures
        openings_before(rows, a) <= openings_before(rows, b),
    decreases b - a,
{
    if a < b {
        lemma_openings_monotone(rows, a, b - 1);
    }
}

/// Splits maze text into rows of symbols, as `maze_rows` reads it.
pub fn split_rows(maze: &[char]) -> (rows: Vec<Vec<char>>)
    ensures
        rows@.len() == maze_rows(maze@).len(),
        forall|k: int| 0 <= k < rows@.len() ==> #[trigger] rows@[k]@ == maze_rows(maze@)[k],
{
    let mut rows: Vec<Vec<char>> = Vec::new();
    let mut cur: Vec<char> = Vec::new();
    let mut i: usize = 0;
    while i < maze.len()
        invariant
            i <= maze@.len(),
            rows@.len() == scan(maze@.take(i as int)).0.len(),
            forall|k: int|
                0 <= k < rows@.len() ==> #[trigger] rows@[k]@ == scan(maze@.take(i as int)).0[k],
            cur@ == scan(maze@.take(i as int)).1,
        decreases maze@.len() - i,
    {
        let c = maze[i];
        assert(maze@.take(i + 1).drop_last() =~= maze@.take(i as int));
        assert(maze@.take(i + 1).last() == c);
        if c == '\n' {
            if cur.len() > 0 {
                rows.push(cur);
                cur = Vec::new();
            }
        } else if c == '-' || c == '#' {
            cur.push(c);
        }
        i = i + 1;
    }
    assert(maze@.take(maze@.len() as int) =~= maze@);
    if cur.len() > 0 {
        rows.push(cur);
    }
    rows
}

pub proof fn lemma_index_in_range(c: Coordinate, w: int, h: int)
    requires
        c.x < w,
        c.y < h,
    ensures
        0 <= index_of(c, w) < h * w,
{
    assert(0 <= c.y * w + c.x < h * w) by (nonlinear_arith)
        requires
            c.x < w,
            c.y < h,
            0 <= c.x,
            0 <= c.y,
    ;
}

pub proof fn lemma_index_coord(c: Coordinate, w: int)
    requires
        c.x < w,
    ensures
        index_of(c, w) % w == c.x,
        index_of(c, w) / w == c.y,
{
    lemma_fundamental_div_mod_converse(index_of(c, w), w, c.y as int, c.x as int);
}

proof fn lemma_models_wf(g: Grid, rows: Seq<Seq<char>>)
    requires
        is_valid_maze(rows),
        g.models(rows),
        g.cells@.len() <= usize::MAX,
    ensures
        g.wf(),
{
    let w = g.width as int;
    let h = g.height as int;
    let e = g.entrance_index();
    let x = g.exit_index();
    assert(n_cells(rows) == w * h) by (nonlinear_arith)
        requires
            n_cells(rows) == rows.len() * row_width(rows),
            w == row_width(rows),
            h == rows.len(),
    ;
    lemma_index_in_range(g.entrance_location, w, h);
    lemma_index_in_range(g.exit_location, w, h);
    assert(g.cells@[e].cell_type == CellType::Entrance);
    assert(g.cells@[x].cell_type == CellType::Exit);
    assert forall|j: int|
        0 <= j < g.cells@.len() && #[trigger] g.cells@[j].cell_type == CellType::Entrance
        implies j == e by {
        if j < e {
            lemma_openings_monotone(rows, j + 1, e);
        } else if e < j {
            lemma_openings_monotone(rows, e + 1, j);
        }
    }
}

/// Two coordinates one step apart: equal on one axis, 1 apart on the other.
pub open spec fn adjacent(a: Coordinate, b: Coordinate) -> bool {
    ||| a.x == b.x && (a.y + 1 == b.y || b.y + 1 == a.y)
    ||| a.y == b.y && (a.x + 1 == b.x || b.x + 1 == a.x)
}

pub open spec fn abs_diff(a: int, b: int) -> int {
    if a < b {
        b - a
    } else {
        a - b
    }
}

/// `|dx| + |dy|` between two coordinates.
pub open spec fn manhattan(a: Coordinate, b: Coordinate) -> int {
    abs_diff(a.x as int, b.x as int) + abs_diff(a.y as int, b.y as int)
}

/// An open position of the maze `rows`.
pub open spec fn open_in(rows: Seq<Seq<char>>, c: Coordinate) -> bool {
    &&& c.x < row_width(rows)
    &&& c.y < rows.len()
    &&& cell_type_at(rows, index_of(c, row_width(rows))) != CellType::Wall
}

/// `c` is the opening of the maze with `k` openings before it.
pub open spec fn is_opening_number(rows: Seq<Seq<char>>, c: Coordinate, k: nat) -> bool {
    &&& c.x < row_width(rows)
    &&& c.y < rows.len()
    &&& is_opening(rows, index_of(c, row_width(rows)))
    &&& openings_before(rows, index_of(c, row_width(rows))) == k
}

/// A route through the maze `rows`: open positions, each one step from the
/// next, from the entrance (the first opening) to the exit (the second).
pub open spec fn is_maze_route(rows: Seq<Seq<char>>, q: Seq<Coordinate>) -> bool {
    &&& q.len() > 0
    &&& forall|i: int| 0 <= i < q.len() ==> open_in(rows, #[trigger] q[i])
    &&& forall|i: int| 0 <= i < q.len() - 1 ==> adjacent(#[trigger] q[i], q[i + 1])
    &&& is_opening_number(rows, q[0], 0)
    &&& is_opening_number(rows, q.last(), 1)
}

/// A route with no more positions than any other.
pub open spec fn is_shortest_route(rows: Seq<Seq<char>>, q: Seq<Coordinate>) -> bool {
    &&& is_maze_route(rows, q)
    &&& forall|q2: Seq<Coordinate>| #[trigger] is_maze_route(rows, q2) ==> q.len() <= q2.len()
}

pub proof fn lemma_opening_unique(rows: Seq<Seq<char>>, a: int, b: int)
    requires
        is_opening(rows, a),
        is_opening(rows, b),
        openings_before(rows, a) == openings_before(rows, b),
        0 <= a,
        0 <= b,
    ensures
        a == b,
{
    if a < b {
        lemma_openings_monotone(rows, a + 1, b);
    } else if b < a {
        lemma_openings_monotone(rows, b + 1, a);
    }
}

proof fn lemma_coord_from_index(c: Coordinate, d: Coordinate, w: int)
    requires
        c.x < w,
        d.x < w,
        index_of(c, w) == index_of(d, w),
    ensures
        c == d,
{
    lemma_index_coord(c, w);
    lemma_index_coord(d, w);
}

/// A walk of a grid that models `rows` is a route of `rows` exactly when
/// it goes from the grid's entrance to its exit.
pub proof fn lemma_walks_match(g: &Grid, rows: Seq<Seq<char>>, q: Seq<Coordinate>)
    requires
        is_valid_maze(rows),
        g.models(rows),
        g.wf(),
    ensures
        g.is_walk_to(q, g.exit_location) == is_maze_route(rows, q),
{
    let w = g.width as int;
    let h = g.height as int;
    assert(n_cells(rows) == w * h) by (nonlinear_arith)
        requires
            n_cells(rows) == rows.len() * row_width(rows),
            w == row_width(rows),
            h == rows.len(),
    ;
    assert forall|c: Coordinate| g.in_bounds(c) implies g.open_at(c) == open_in(rows, c) by {
        lemma_index_in_range(c, w, h);
    }
    if q.len() > 0 {
        if g.is_walk_to(q, g.exit_location) {
            assert forall|i: int| 0 <= i < q.len() implies open_in(rows, #[trigger] q[i]) by {
                assert(g.open_at(q[i]));
            }
        }
        if is_maze_route(rows, q) {
            assert forall|i: int| 0 <= i < q.len() implies g.open_at(#[trigger] q[i]) by {
                assert(open_in(rows, q[i]));
            }
            lemma_index_in_range(q[0], w, h);
            lemma_index_in_range(q.last(), w, h);
            lemma_opening_unique(rows, index_of(q[0], w), g.entrance_index());
            lemma_opening_unique(rows, index_of(q.last(), w), g.exit_index());
            lemma_coord_from_index(q[0], g.entrance_location, w);
            lemma_coord_from_index(q.last(), g.exit_location, w);
        }
    }
}

/// A rectangular maze: `width * height` cells in row-major order.
#[derive(Debug)]
pub struct Grid {
    pub width: usize,
    pub height: usize,
    pub entrance_location: Coordinate,
    pub exit_location: Coordinate,
    pub cells: Vec<Cell>,
}

impl Grid {
    /// The coordinate of the cell at row-major position `j`.
    pub open spec fn coord_at(&self, j: int) -> Coordinate {
        Coordinate { x: (j % self.width as int) as usize, y: (j / self.width as int) as usize }
    }

    pub open spec fn in_bounds(&self, c: Coordinate) -> bool {
        c.x < self.width && c.y < self.height
    }

    pub open spec fn entrance_index(&self) -> int {
        index_of(self.entrance_location, self.width as int)
    }

    pub open spec fn exit_index(&self) -> int {
        index_of(self.exit_location, self.width as int)
    }

    /// Builds the grid of a maze text. Fails with `ParseError` exactly when
    /// the text has no rows, rows of differing length, or fewer than two
    /// openings.
    pub fn new(maze: &[char]) -> (r: Result<Grid, SolveError>)
        ensures
            match r {
                Ok(g) => is_valid_maze(maze_rows(maze@)) && g.models(maze_rows(maze@)) && g.wf(),
                Err(e) => e == SolveError::ParseError && !is_valid_maze(maze_rows(maze@)),
            },
    {
        let ghost rs = maze_rows(maze@);
        let rows = split_rows(maze);
        let h = rows.len();
        if h == 0 {
            return Err(SolveError::ParseError);
        }
        let w = rows[0].len();
        if w == 0 {
            return Err(SolveError::ParseError);
        }
        let mut k: usize = 0;
        while k < h
            invariant
                rs == maze_rows(maze@),
                k <= h,
                h == rows@.len(),
                w == rows@[0]@.len(),
                rows@.len() == rs.len(),
                forall|i: int| 0 <= i < rows@.len() ==> #[trigger] rows@[i]@ == rs[i],
                forall|i: int| 0 <= i < k ==> #[trigger] rs[i].len() == w,
            decreases h - k,
        {
            if rows[k].len() != w {
                assert(rows@[k as int]@ == rs[k as int]);
                assert(rs[k as int].len() != rs[0].len());
                return Err(SolveError::ParseError);
            }
            k = k + 1;
        }
        assert(is_rectangular(rs));
        let ml = maze.len();
        proof {
            lemma_maze_rows_len(maze@);
            lemma_total_len_uniform(rs, w as int);
        }
        let n = h * w;
        let mut cells: Vec<Cell> = Vec::new();
        let mut j: usize = 0;
        let mut x: usize = 0;
        let mut y: usize = 0;
        let mut openings: usize = 0;
        let mut first = Coordinate { x: 0, y: 0 };
        let mut second = Coordinate { x: 0, y: 0 };
        while j < n
            invariant
                rs == maze_rows(maze@),
                is_rectangular(rs),
                n == h * w,
                h == rs.len(),
                w == row_width(rs),
                n == n_cells(rs),
                rows@.len() == rs.len(),
                forall|i: int| 0 <= i < rows@.len() ==> #[trigger] rows@[i]@ == rs[i],
                j <= n,
                cells@.len() == j,
                j == y * w + x,
                x < w,
                forall|i: int|
                    0 <= i < j ==> {
                        let c = #[trigger] cells@[i];
                        &&& c.coordinate == (Coordinate { x: (i % w as int) as usize, y: (i / w as int) as usize })
                        &&& c.cell_type == cell_type_at(rs, i)
                        &&& c.parent_coord == (Coordinate { x: 0, y: 0 })
                        &&& c.manhattan_from_exit == 0
                        &&& c.cost == 0
                    },
                openings == openings_before(rs, j as int),
                openings <= j,
                openings >= 1 ==> first.x < w && first.y < h && is_opening(rs, index_of(first, w as int))
                    && openings_before(rs, index_of(first, w as int)) == 0,
                openings >= 2 ==> second.x < w && second.y < h && is_opening(rs, index_of(second, w as int))
                    && openings_before(rs, index_of(second, w as int)) == 1,
            decreases n - j,
        {
            proof {
                lemma_fundamental_div_mod_converse(j as int, w as int, y as int, x as int);
                assert(y < h) by (nonlinear_arith)
                    requires
                        j == y * w + x,
                        j < h * w,
                ;
            }
            let c = rows[y][x];
            let on_edge = x == 0 || y == 0 || x == w - 1 || y == h - 1;
            let here = Coordinate { x, y };
            let t = if c == '#' {
                CellType::Wall
            } else if c == '-' && on_edge {
                let t = if openings == 0 {
                    first = here;
                    CellType::Entrance
                } else {
                    if openings == 1 {
                        second = here;
                    }
                    CellType::Exit
                };
                openings = openings + 1;
                t
            } else {
                CellType::Path
            };
            cells.push(Cell::new(here, t));
            let ghost (oj, ox, oy) = (j as int, x as int, y as int);
            j = j + 1;
            x = x + 1;
            if x == w {
                x = 0;
                y = y + 1;
            }
            proof {
                assert(j == y * w + x) by (nonlinear_arith)
                    requires
                        oj == oy * w + ox,
                        j == oj + 1,
                        (x == ox + 1 && y == oy) || (ox + 1 == w && x == 0 && y == oy + 1),
                ;
            }
        }
        if openings < 2 {
            return Err(SolveError::ParseError);
        }
        let g = Grid { width: w, height: h, entrance_location: first, exit_location: second, cells };
        proof {
            lemma_models_wf(g, rs);
        }
        Ok(g)
    }

    /// A position inside the grid that is not a wall.
    pub open spec fn open_at(&self, c: Coordinate) -> bool {
        self.in_bounds(c) && self.cells@[index_of(c, self.width as int)].cell_type != CellType::Wall
    }

    /// A walk: one or more open positions, each one step from the next.
    pub open spec fn is_walk(&self, q: Seq<Coordinate>) -> bool {
        &&& q.len() > 0
        &&& forall|i: int| 0 <= i < q.len() ==> self.open_at(#[trigger] q[i])
        &&& forall|i: int| 0 <= i < q.len() - 1 ==> adjacent(#[trigger] q[i], q[i + 1])
    }

    /// A walk that starts at the entrance and ends at `c`.
    pub open spec fn is_walk_to(&self, q: Seq<Coordinate>, c: Coordinate) -> bool {
        self.is_walk(q) && q[0] == self.entrance_location && q.last() == c
    }

    /// Same dimensions, endpoints, and cell types and coordinates: only what
    /// the search records may differ.
    pub open spec fn same_maze(&self, o: &Grid) -> bool {
        &&& self.width == o.width
        &&& self.height == o.height
        &&& self.entrance_location == o.entrance_location
        &&& self.exit_location == o.exit_location
        &&& self.cells@.len() == o.cells@.len()
        &&& forall|j: int|
            0 <= j < self.cells@.len() ==> (#[trigger] self.cells@[j]).cell_type
                == o.cells@[j].cell_type && self.cells@[j].coordinate == o.cells@[j].coordinate
    }

    /// The shape that every grid keeps: `width * height` cells, each at its
    /// own coordinate; one entrance, and an exit elsewhere.
    pub open spec fn wf(&self) -> bool {
        &&& self.width > 0
        &&& self.height > 0
        &&& self.cells@.len() == self.width * self.height
        &&& self.cells@.len() <= usize::MAX
        &&& forall|j: int|
            0 <= j < self.cells@.len() ==> #[trigger] self.cells@[j].coordinate == self.coord_at(j)
        &&& self.in_bounds(self.entrance_location)
        &&& self.in_bounds(self.exit_location)
        &&& self.entrance_location != self.exit_location
        &&& self.cells@[self.entrance_index()].cell_type == CellType::Entrance
        &&& self.cells@[self.exit_index()].cell_type == CellType::Exit
        &&& forall|j: int|
            0 <= j < self.cells@.len() && #[trigger] self.cells@[j].cell_type == CellType::Entrance
                ==> j == self.entrance_index()
    }

    /// The grid holds the maze `rows` as parsed and not yet searched.
    pub open spec fn models(&self, rows: Seq<Seq<char>>) -> bool {
        &&& self.width == row_width(rows)
        &&& self.height == rows.len()
        &&& self.cells@.len() == n_cells(rows)
        &&& forall|j: int|
            0 <= j < self.cells@.len() ==> {
                let c = #[trigger] self.cells@[j];
                &&& c.coordinate == self.coord_at(j)
                &&& c.cell_type == cell_type_at(rows, j)
                &&& c.parent_coord == (Coordinate { x: 0, y: 0 })
                &&& c.manhattan_from_exit == 0
                &&& c.cost == 0
            }
        &&& self.in_bounds(self.entrance_location)
        &&& self.in_bounds(self.exit_location)
        &&& is_opening(rows, self.entrance_index())
        &&& openings_before(rows, self.entrance_index()) == 0
        &&& is_opening(rows, self.exit_index())
        &&& openings_before(rows, self.exit_index()) == 1
    }
}

} // verus!
