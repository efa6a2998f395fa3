use maze_solver::cell::CellType::{Entrance, Exit, Path, Wall};
use maze_solver::cell::{Cell, CellType, Coordinate};
use maze_solver::grid::{split_rows, Grid};
use maze_solver::search::{solve, solve_grid};
use maze_solver::SolveError;
use std::collections::VecDeque;

fn chars(text: &str) -> Vec<char> {
    text.chars().collect()
}

fn at(x: usize, y: usize) -> Coordinate {
    Coordinate { x, y }
}

fn is_step(a: Coordinate, b: Coordinate) -> bool {
    let dx = a.x.abs_diff(b.x);
    let dy = a.y.abs_diff(b.y);
    (dx == 1 && dy == 0) || (dx == 0 && dy == 1)
}

/// Checks what every returned route must satisfy against a freshly built
/// grid of the same text.
fn check_route(text: &str, path: &[Coordinate]) {
    let g = Grid::new(&chars(text)).unwrap();
    assert!(!path.is_empty());
    assert_eq!(path[0], g.entrance_location);
    assert_eq!(*path.last().unwrap(), g.exit_location);
    for (i, c) in path.iter().enumerate() {
        assert!(c.x < g.width && c.y < g.height);
        let cell = g.cells[c.y * g.width + c.x];
        assert_ne!(cell.cell_type, CellType::Wall);
        if i > 0 {
            assert_ne!(*c, g.entrance_location);
            assert!(is_step(path[i - 1], *c));
        }
        if i + 1 < path.len() {
            assert_ne!(*c, g.exit_location);
        }
    }
}

/// Number of positions on a shortest route, by breadth-first search.
fn bfs_positions(text: &str) -> Option<usize> {
    let g = Grid::new(&chars(text)).unwrap();
    let (w, h) = (g.width, g.height);
    let mut dist = vec![usize::MAX; w * h];
    let start = g.entrance_location.y * w + g.entrance_location.x;
    dist[start] = 0;
    let mut queue = VecDeque::new();
    queue.push_back(start);
    while let Some(i) = queue.pop_front() {
        let (x, y) = (i % w, i / w);
        let mut next = Vec::new();
        if x > 0 {
            next.push(i - 1);
        }
        if x + 1 < w {
            next.push(i + 1);
        }
        if y > 0 {
            next.push(i - w);
        }
        if y + 1 < h {
            next.push(i + w);
        }
        for j in next {
            if g.cells[j].cell_type != CellType::Wall && dist[j] == usize::MAX {
                dist[j] = dist[i] + 1;
                queue.push_back(j);
            }
        }
    }
    let exit = g.exit_location.y * w + g.exit_location.x;
    if dist[exit] == usize::MAX {
        None
    } else {
        Some(dist[exit] + 1)
    }
}

const SMALL: &str = "-#-\n---\n-#-\n";

const WINDING: &str = "\
#-#######
#---#---#
###-#-#-#
#---#-#-#
#-###-#-#
#-----#--
#########
";

const TWO_WAYS: &str = "\
#-#####
#-----#
#-###-#
#-----#
#####-#
";

#[test]
fn cell_new_starts_unreached() {
    let c = Cell::new(at(3, 4), CellType::Path);
    assert_eq!(c.cell_type, CellType::Path);
    assert_eq!(c.coordinate, at(3, 4));
    assert_eq!(c.parent_coord, at(0, 0));
    assert_eq!(c.manhattan_from_exit, 0);
    assert_eq!(c.cost, 0);
}

#[test]
fn split_rows_drops_other_characters_and_blank_lines() {
    let rows = split_rows(&chars("\n - # -\r\n\n#x#-\n\n"));
    assert_eq!(rows, vec![vec!['-', '#', '-'], vec!['#', '#', '-']]);
}

#[test]
fn grid_of_small_maze() {
    let g = Grid::new(&chars(SMALL)).unwrap();
    assert_eq!(g.width, 3);
    assert_eq!(g.height, 3);
    assert_eq!(g.cells.len(), 9);
    assert_eq!(g.entrance_location, at(0, 0));
    assert_eq!(g.exit_location, at(2, 0));
    let types: Vec<CellType> = g.cells.iter().map(|c| c.cell_type).collect();
    assert_eq!(types, vec![Entrance, Wall, Exit, Exit, Path, Exit, Exit, Wall, Exit]);
    for (j, c) in g.cells.iter().enumerate() {
        assert_eq!(c.coordinate, at(j % 3, j / 3));
        assert_eq!(c.cost, 0);
    }
}

#[test]
fn small_maze_route() {
    let path = solve(&chars(SMALL)).unwrap();
    check_route(SMALL, &path);
    assert_eq!(path, vec![at(0, 0), at(0, 1), at(1, 1), at(2, 1), at(2, 0)]);
}

#[test]
fn enclosed_entrance_has_no_route() {
    let text = "-#-\n##-\n---\n";
    assert_eq!(solve(&chars(text)), Err(SolveError::NoPathFound));
}

#[test]
fn walled_ring_has_no_route() {
    let text = "\
#-#####
#######
#-----#
#-###-#
#-----#
#####-#
";
    assert_eq!(solve(&chars(text)), Err(SolveError::NoPathFound));
}

#[test]
fn straight_corridor() {
    let text = "#######\n-------\n#######\n";
    let path = solve(&chars(text)).unwrap();
    assert_eq!(path.len(), 7);
    for (i, c) in path.iter().enumerate() {
        assert_eq!(*c, at(i, 1));
    }
}

#[test]
fn rows_of_differing_length_are_rejected() {
    assert_eq!(solve(&chars("---\n--\n---\n")), Err(SolveError::ParseError));
    assert!(Grid::new(&chars("#-#\n#-\n")).is_err());
}

#[test]
fn empty_text_is_rejected() {
    assert_eq!(solve(&chars("")), Err(SolveError::ParseError));
    assert_eq!(solve(&chars(" \n\n  \n")), Err(SolveError::ParseError));
}

#[test]
fn one_opening_is_rejected() {
    assert_eq!(solve(&chars("#-#\n#-#\n###\n")), Err(SolveError::ParseError));
    assert_eq!(solve(&chars("###\n#-#\n###\n")), Err(SolveError::ParseError));
}

#[test]
fn winding_maze_is_shortest() {
    let path = solve(&chars(WINDING)).unwrap();
    check_route(WINDING, &path);
    assert_eq!(Some(path.len()), bfs_positions(WINDING));
    assert_eq!(path.len(), 25);
}

#[test]
fn shorter_of_two_ways_is_taken() {
    let path = solve(&chars(TWO_WAYS)).unwrap();
    check_route(TWO_WAYS, &path);
    assert_eq!(Some(path.len()), bfs_positions(TWO_WAYS));
    assert_eq!(path.len(), 9);
}

#[test]
fn open_field_is_shortest() {
    let text = "#-####\n#----#\n#----#\n#----#\n####-#\n";
    let path = solve(&chars(text)).unwrap();
    check_route(text, &path);
    assert_eq!(path.len(), 8);
    assert_eq!(Some(path.len()), bfs_positions(text));
}

#[test]
fn solving_twice_gives_the_same_route() {
    for text in [SMALL, WINDING, TWO_WAYS] {
        assert_eq!(solve(&chars(text)), solve(&chars(text)));
    }
}

#[test]
fn parsing_twice_gives_the_same_grid() {
    for text in [SMALL, WINDING, TWO_WAYS] {
        let a = Grid::new(&chars(text)).unwrap();
        let b = Grid::new(&chars(text)).unwrap();
        assert_eq!(a.width, b.width);
        assert_eq!(a.height, b.height);
        assert_eq!(a.entrance_location, b.entrance_location);
        assert_eq!(a.exit_location, b.exit_location);
        assert_eq!(a.cells, b.cells);
    }
}

#[test]
fn solve_grid_records_costs_and_heuristic() {
    let mut g = Grid::new(&chars(TWO_WAYS)).unwrap();
    let path = solve_grid(&mut g).unwrap();
    let exit = g.exit_location.y * g.width + g.exit_location.x;
    assert_eq!(g.cells[exit].cost, path.len() - 1);
    let second = path[1];
    let c = g.cells[second.y * g.width + second.x];
    assert_eq!(c.cost, 1);
    assert_eq!(c.parent_coord, path[0]);
    let d = second.x.abs_diff(g.exit_location.x) + second.y.abs_diff(g.exit_location.y);
    assert_eq!(c.manhattan_from_exit, d);
}

#[test]
fn extra_openings_are_ordinary_cells() {
    let text = "-#-\n---\n---\n";
    let path = solve(&chars(text)).unwrap();
    check_route(text, &path);
    assert_eq!(path.len(), 5);
}
