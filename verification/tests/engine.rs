use aoc_days::day16::run_on_string;
use aoc_days::{Direction, Grid, GridRow, Kind, Maze, XY};

// a 15-by-15 maze whose only corridor runs straight east from S to E
fn straight_corridor() -> String {
    let mut rows: Vec<String> = Vec::new();
    rows.push("###############".to_string());
    rows.push("#S...........E#".to_string());
    for _ in 0..13 {
        rows.push("###############".to_string());
    }
    rows.join("\n")
}

#[test]
fn straight_corridor_best_cost() {
    let maze = straight_corridor();
    // twelve forward steps, no turns
    assert_eq!(run_on_string(&maze, 1, false), Ok(12));
}

#[test]
fn straight_corridor_seats() {
    let maze = straight_corridor();
    // every corridor cell lies on the single optimal path
    assert_eq!(run_on_string(&maze, 2, false), Ok(13));
}

const TWIN_PATHS: &str = "######\n#...##\n#S#.E#\n#...##\n######";

#[test]
fn twin_paths_share_the_minimum() {
    // both detours pay three turns and five steps before the shared
    // final step into the end
    assert_eq!(run_on_string(TWIN_PATHS, 1, false), Ok(4005));
}

#[test]
fn twin_paths_count_both_routes() {
    // seats: S, E, the merge cell, and the three cells of each detour
    assert_eq!(run_on_string(TWIN_PATHS, 2, false), Ok(9));
}

#[test]
fn reconstruction_follows_one_arrival_direction() {
    // the two equal detours here reach the end facing opposite ways;
    // the backward walk starts from the single cheapest arrival node,
    // so only that arrival's route is marked
    let split_arrivals = "#####\n#...#\n#S#E#\n#...#\n#####";
    assert_eq!(run_on_string(split_arrivals, 1, false), Ok(3004));
    assert_eq!(run_on_string(split_arrivals, 2, false), Ok(5));
}

#[test]
fn single_turn_costs_a_thousand() {
    let maze = "#####\n###E#\n#S..#\n#####";
    // two forward steps east, one quarter turn, one step north
    assert_eq!(run_on_string(maze, 1, false), Ok(1003));
}

#[test]
fn start_is_always_a_seat() {
    assert_eq!(run_on_string("SE", 2, false), Ok(2));
}

#[test]
fn running_twice_is_idempotent() {
    let first_best = run_on_string(TWIN_PATHS, 1, false);
    let second_best = run_on_string(TWIN_PATHS, 1, false);
    assert_eq!(first_best, second_best);
    let first_seats = run_on_string(TWIN_PATHS, 2, false);
    let second_seats = run_on_string(TWIN_PATHS, 2, false);
    assert_eq!(first_seats, second_seats);
}

#[test]
fn unknown_characters_are_fatal() {
    assert!(run_on_string("SxE", 1, false).is_err());
}

#[test]
fn missing_start_is_fatal() {
    assert!(run_on_string("..E", 1, false).is_err());
}

#[test]
fn missing_end_is_fatal() {
    assert!(run_on_string("S..", 1, false).is_err());
}

#[test]
fn repeated_start_is_fatal() {
    assert!(run_on_string("S.SE", 1, false).is_err());
}

#[test]
fn ragged_rows_are_fatal() {
    assert!(run_on_string("S.\n.E.", 1, false).is_err());
}

#[test]
fn unreachable_end_is_fatal() {
    assert!(run_on_string("S#E", 1, false).is_err());
}

#[test]
fn sample_maze_best_cost_and_seats() {
    let maze = "\
###############\n\
#.......#....E#\n\
#.#.###.#.###.#\n\
#.....#.#...#.#\n\
#.###.#####.#.#\n\
#.#.#.......#.#\n\
#.#.#####.###.#\n\
#...........#.#\n\
###.#.#####.#.#\n\
#...#.....#.#.#\n\
#.#.#.###.#.#.#\n\
#.....#...#.#.#\n\
#.###.#.#.#.#.#\n\
#S..#.....#...#\n\
###############";
    assert_eq!(run_on_string(maze, 1, false), Ok(7036));
    assert_eq!(run_on_string(maze, 2, false), Ok(45));
}

// a brute-force check of the relaxation: Bellman-Ford style sweeps
// over the same routing graph must agree on the best arrival cost
#[test]
fn brute_force_agrees_on_best_cost() {
    for maze_text in [TWIN_PATHS, "#####\n###E#\n#S..#\n#####", "S.E\n.#."] {
        let expected = brute_force_best(maze_text);
        let got = run_on_string(maze_text, 1, false).expect("a solvable maze");
        assert_eq!(got, expected);
    }
}

fn brute_force_best(text: &str) -> i64 {
    let rows: Vec<&str> = text.lines().collect();
    let h = rows.len();
    let w = rows[0].len();
    let grid: Vec<Vec<u8>> = rows.iter().map(|r| r.as_bytes().to_vec()).collect();
    let mut start = (0usize, 0usize);
    let mut end = (0usize, 0usize);
    for r in 0..h {
        for c in 0..w {
            if grid[r][c] == b'S' {
                start = (r, c);
            }
            if grid[r][c] == b'E' {
                end = (r, c);
            }
        }
    }
    // node: (row, col, direction), directions 0..4 = north south east west
    let offs = [(-1i64, 0i64), (1, 0), (0, 1), (0, -1)];
    let inf = i64::MAX / 2;
    let mut dist = vec![inf; w * h * 4];
    dist[(start.0 * w + start.1) * 4 + 2] = 0;
    // relax everything repeatedly until a fixed point
    let mut changed = true;
    while changed {
        changed = false;
        for r in 0..h {
            for c in 0..w {
                if grid[r][c] == b'#' {
                    continue;
                }
                for d in 0..4 {
                    let cur = dist[(r * w + c) * 4 + d];
                    if cur >= inf {
                        continue;
                    }
                    let (dr, dc) = offs[d];
                    let nr = r as i64 + dr;
                    let nc = c as i64 + dc;
                    if nr >= 0 && (nr as usize) < h && nc >= 0 && (nc as usize) < w
                        && grid[nr as usize][nc as usize] != b'#'
                    {
                        let idx = ((nr as usize) * w + nc as usize) * 4 + d;
                        if cur + 1 < dist[idx] {
                            dist[idx] = cur + 1;
                            changed = true;
                        }
                    }
                    for nd in turn_neighbours(d) {
                        let idx = (r * w + c) * 4 + nd;
                        if cur + 1000 < dist[idx] {
                            dist[idx] = cur + 1000;
                            changed = true;
                        }
                    }
                }
            }
        }
    }
    (0..4).map(|d| dist[(end.0 * w + end.1) * 4 + d]).min().unwrap()
}

fn turn_neighbours(d: usize) -> [usize; 2] {
    // north <-> east/west, south <-> east/west and so on
    match d {
        0 => [3, 2],
        1 => [2, 3],
        2 => [0, 1],
        _ => [1, 0],
    }
}

#[test]
fn directions_turn_and_mirror() {
    assert_eq!(Direction::North.clockwise(), Direction::East);
    assert_eq!(Direction::East.clockwise(), Direction::South);
    assert_eq!(Direction::North.counter_clockwise(), Direction::West);
    assert_eq!(Direction::West.mirror(), Direction::East);
    assert_eq!(Direction::South.mirror(), Direction::North);
    assert_eq!(Direction::North.as_char(), '^');
    assert_eq!(Direction::South.as_letter(), 'S');
}

#[test]
fn maze_reports_its_shape() {
    let maze = Maze::new_from_string("S.E\n...").expect("a valid maze");
    assert_eq!(maze.row_count(), 2);
    assert_eq!(maze.col_count(), 3);
    assert_eq!(maze.width(), 3);
    assert_eq!(maze.height(), 2);
    assert_eq!(maze.start().x(), 0);
    assert_eq!(maze.start().y(), 0);
    assert_eq!(maze.end().x(), 2);
    assert_eq!(maze.end().y(), 0);
    assert!(matches!(*maze.at(maze.start()), Kind::Floor));
}

#[test]
fn coordinates_shift_and_move() {
    let mut p = XY::new(3, 4);
    assert_eq!(p.x(), 3);
    assert_eq!(p.y(), 4);
    assert_eq!(p.row(), 4);
    assert_eq!(p.col(), 3);
    let q = p.offset(1, -2);
    assert_eq!((q.x(), q.y()), (4, 2));
    let r = p.offset_with(XY::new(-1, 1));
    assert_eq!((r.x(), r.y()), (2, 5));
    p.mut_offset(2, 2);
    assert_eq!((p.x(), p.y()), (5, 6));
    p.mut_offset_with(XY::new(1, 0));
    assert_eq!((p.x(), p.y()), (6, 6));
    p.mut_move_to(XY::new(0, 0));
    assert_eq!((p.x(), p.y()), (0, 0));
    assert_eq!(XY::from_rc(2, 7), XY::new(7, 2));
}

#[test]
fn grids_grow_row_by_row() {
    let mut grid: Grid<i32> = Grid::new();
    assert_eq!(grid.row_count(), 0);
    let mut row: GridRow<i32> = Vec::new();
    row.push(1);
    row.push(2);
    grid.push(row);
    let mut row2: GridRow<i32> = Vec::new();
    row2.push(3);
    row2.push(4);
    grid.push(row2);
    assert_eq!(grid.row_count(), 2);
    assert_eq!(grid.col_count(), 2);
    assert_eq!(grid.width(), 2);
    assert_eq!(grid.height(), 2);
    assert_eq!(*grid.at_rc(1, 0), 3);
    grid.set_rc(1, 0, 9);
    assert_eq!(*grid.at_rc(1, 0), 9);

    let from = Grid::from_cells(vec![vec![5, 6], vec![7, 8]]);
    assert_eq!(*from.at_rc(0, 1), 6);
}

#[test]
fn graph_stages_run_one_by_one() {
    let maze = Maze::new_from_string(TWIN_PATHS).expect("a valid maze");
    let mut graph = aoc_days::MazeGraph::new(&maze);
    graph.identify_shortest_connections(maze.start());
    assert!(graph.check_costs(maze.start()));
    let best = graph.mark_shortest_path(maze.start(), maze.end());
    assert_eq!(best, 4005);
    assert_eq!(graph.count_seats(), 9);
    // marking again confirms the same marks and reports the same cost
    let again = graph.mark_shortest_path(maze.start(), maze.end());
    assert_eq!(again, 4005);
    assert_eq!(graph.count_seats(), 9);
    // the primary walk alone reports the same best cost
    let mut fresh = aoc_days::MazeGraph::new(&maze);
    fresh.identify_shortest_connections(maze.start());
    assert_eq!(fresh.mark_primary_shortest_path(maze.start(), maze.end()), 4005);
    assert!(fresh.count_seats() < 9);
}

#[test]
fn one_turn_with_four_steps() {
    let maze = "#####\n#S..#\n###.#\n###E#\n#####";
    // four forward steps and exactly one quarter turn
    assert_eq!(run_on_string(maze, 1, false), Ok(1004));
}
