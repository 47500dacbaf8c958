use vstd::prelude::*;
use vstd::string::StringSliceAdditionalSpecFns;
use crate::maze::{maze_ok, Kind, Maze};
use crate::maze_graph::{n_cell, MazeGraph, INFINITE_COST};

verus! {

/// The graph was built from this maze: same dimensions, and a floor
/// flag exactly where the maze has a floor cell.
pub open spec fn graph_matches_maze(g: MazeGraph, m: Maze) -> bool {
    &&& g.width == m.map.width
    &&& g.height == m.map.height
    &&& g.cells.len() == g.num_cells()
    &&& forall|ci: int|
        0 <= ci < g.num_cells() ==> (#[trigger] g.cells[ci]).floor == (m.map.cells[g.cell_row(
            ci)][g.cell_col(ci)] == Kind::Floor)
}

/// The maze can be solved: some checked cost labeling of its routing
/// graph reaches the end cell.  Checked labelings all record the true
/// shortest distances, so this says exactly that the end is reachable
/// from the start.
pub open spec fn solvable(m: Maze) -> bool {
    exists|g: MazeGraph|
        {
            &&& #[trigger] graph_matches_maze(g, m)
            &&& g.wf()
            &&& g.costs_good(m.start)
            &&& g.cell_best_weight(m.end.y * g.width + m.end.x) < INFINITE_COST
        }
}

/// Solves the maze: parses the text, builds the routing graph, runs
/// the relaxation from the start cell facing east, reconstructs the
/// best-path forest, and reports the best cost (part 1) or the count
/// of cells on any optimal path (otherwise).  Exactly the malformed
/// texts, the mazes too large for the machine, and the mazes whose
/// end cannot be reached are errors: every other maze is solved.
pub fn run_on_string(input: &str, part: u8, is_benchmark: bool) -> (r: Result<i64, String>)
    ensures
        r is Ok ==> maze_ok(input.spec_bytes()),
        !maze_ok(input.spec_bytes()) ==> r is Err,
        r matches Ok(v) ==> exists|m: Maze, g: MazeGraph|
            {
                &&& m.wf()
                &&& m.matches_text(input.spec_bytes())
                &&& #[trigger] graph_matches_maze(g, m)
                &&& g.wf()
                &&& g.costs_good(m.start)
                &&& g.cell_best_weight(m.end.y * g.width + m.end.x) < INFINITE_COST
                &&& (part == 1 ==> v == g.cell_best_weight(m.end.y * g.width + m.end.x))
                &&& (part != 1 ==> v == g.seat_total())
                // the primary marks are exactly the cells of a walk
                // of least-cost back-references from the chosen
                // cheapest arrival
                &&& exists|walk: Seq<int>|
                    {
                        &&& #[trigger] g.primary_walk(
                            walk,
                            g.chosen_arrival(m.end.y * g.width + m.end.x)->Some_0,
                            m.start.y * g.width + m.start.x,
                        )
                        &&& forall|ci: int|
                            0 <= ci < g.cells.len() ==> ((#[trigger] g.cells[
                            ci]).is_on_primary_path <==> exists|i: int|
                                0 <= i < walk.len() && n_cell(#[trigger] walk[i]) == ci)
                    }
                // every cell marked as on some optimal path owns a
                // node with a weight-consistent chain to a cheapest
                // arrival
                &&& exists|b: int|
                    {
                        &&& g.valid_node(b)
                        &&& n_cell(b) == m.end.y * g.width + m.end.x
                        &&& #[trigger] g.weight(b) == g.cell_best_weight(m.end.y * g.width
                            + m.end.x)
                        &&& forall|ci: int|
                            0 <= ci < g.cells.len() && (#[trigger] g.cells[
                            ci]).is_on_secondary_path ==> exists|v: int|
                                n_cell(v) == ci && g.on_best_chain(v, b)
                    }
            },
        forall|m: Maze|
            m.wf() && m.matches_text(input.spec_bytes()) && input.spec_bytes().len()
                < 0x7fff_ffff && m.map.width * m.map.height <= 0x8000_0000 && 4 * (m.map.width
                * m.map.height) <= usize::MAX && #[trigger] solvable(m) ==> r is Ok,
{
    let _ = is_benchmark;
    let ghost s = input.spec_bytes();
    let maze = match Maze::new_from_string(input) {
        Ok(m) => m,
        Err(e) => {
            proof {
                assert forall|m: Maze|
                    m.wf() && m.matches_text(s) && s.len() < 0x7fff_ffff && m.map.width
                        * m.map.height <= 0x8000_0000 && 4 * (m.map.width * m.map.height)
                        <= usize::MAX && #[trigger] solvable(m) implies false by {
                    assert(maze_ok(s));
                }
            }
            return Err(e);
        },
    };

    let w = maze.col_count();
    let h = maze.row_count();
    proof {
        assert(w <= 0x7fff_ffff && h <= 0x7fff_ffff);
        assert((w as int) * (h as int) <= 0x3fff_ffff_0000_0001) by (nonlinear_arith)
            requires
                0 <= (w as int) <= 0x7fff_ffff,
                0 <= (h as int) <= 0x7fff_ffff,
        ;
    }
    let cells64 = (w as u64) * (h as u64);
    if cells64 > 0x8000_0000u64 || 4 * cells64 > usize::MAX as u64 {
        proof {
            assert forall|m: Maze|
                m.wf() && m.matches_text(s) && s.len() < 0x7fff_ffff && m.map.width
                    * m.map.height <= 0x8000_0000 && 4 * (m.map.width * m.map.height)
                    <= usize::MAX && #[trigger] solvable(m) implies false by {
                Maze::lemma_matches_text_unique(m, maze, s);
            }
        }
        return Err("maze is too large to route".to_owned());
    }

    let mut graph = MazeGraph::new(&maze);
    let start = maze.start();
    let end = maze.end();
    proof {
        crate::maze_graph::lemma_rc_to_ci(graph.width as int, graph.height as int,
            start.y as int, start.x as int);
        crate::maze_graph::lemma_rc_to_ci(graph.width as int, graph.height as int, end.y as int,
            end.x as int);
        assert(graph.cells[start.y * graph.width + start.x].floor);
        assert(graph.cells[end.y * graph.width + end.x].floor);
    }
    graph.identify_shortest_connections(start);

    let eci = (end.y as usize) * graph.width + (end.x as usize);
    let (best_opt, _best_weight) = graph.best_route_at(eci);
    if best_opt.is_none() {
        proof {
            // a solvable maze cannot land here: checked labelings of
            // the same floor plan agree on reachability
            assert forall|m: Maze|
                m.wf() && m.matches_text(s) && s.len() < 0x7fff_ffff && m.map.width
                    * m.map.height <= 0x8000_0000 && 4 * (m.map.width * m.map.height)
                    <= usize::MAX && #[trigger] solvable(m) implies false by {
                Maze::lemma_matches_text_unique(m, maze, s);
                let g2 = choose|g2: MazeGraph|
                    {
                        &&& #[trigger] graph_matches_maze(g2, m)
                        &&& g2.wf()
                        &&& g2.costs_good(m.start)
                        &&& g2.cell_best_weight(m.end.y * g2.width + m.end.x) < INFINITE_COST
                    };
                assert(g2.width == graph.width && g2.height == graph.height);
                assert forall|ci: int|
                    0 <= ci < graph.cells.len() implies (#[trigger] graph.cells[ci]).floor
                    == g2.cells[ci].floor by {
                    let wd = graph.width as int;
                    vstd::arithmetic::div_mod::lemma_fundamental_div_mod(ci, wd);
                    assert(0 <= (ci % wd) && (ci % wd) < wd) by (nonlinear_arith)
                        requires 0 <= ci, 1 <= wd,
                    ;
                    assert(0 <= (ci / wd) && (ci / wd) < graph.height as int)
                        by (nonlinear_arith)
                        requires
                            0 <= ci,
                            ci < wd * (graph.height as int),
                            ci == wd * (ci / wd) + (ci % wd),
                            0 <= (ci % wd) && (ci % wd) < wd,
                            1 <= wd,
                    ;
                    assert(ci < wd * (graph.height as int)) by (nonlinear_arith)
                        requires
                            ci < (graph.width as int) * (graph.height as int),
                            wd == graph.width as int,
                    ;
                    assert(graph.cells[ci].floor == (maze.map.cells[graph.cell_row(
                        ci)][graph.cell_col(ci)] == Kind::Floor));
                    assert(g2.cells[ci].floor == (m.map.cells[g2.cell_row(ci)][g2.cell_col(ci)]
                        == Kind::Floor));
                    assert(m.map.cells[graph.cell_row(ci)][graph.cell_col(ci)]
                        == maze.map.cells[graph.cell_row(ci)][graph.cell_col(ci)]);
                }
                assert(m.start == maze.start && m.end == maze.end);
                MazeGraph::lemma_reachability_determined(graph, g2, start, eci as int);
            }
        }
        return Err("the end position cannot be reached from the start".to_owned());
    }

    let ghost pre_mark = graph;
    let result = graph.mark_shortest_path(start, end);
    let answer = if part == 1 {
        result
    } else {
        graph.count_seats()
    };
    proof {
        let m = maze;
        let g = graph;
        assert(graph_matches_maze(g, m));
        assert(g.cell_best_weight(m.end.y * g.width + m.end.x) == result);
        // the graph carried no marks into the reconstruction, so the
        // mark description loses its old-state disjuncts
        let walk = choose|walk: Seq<int>|
            {
                &&& #[trigger] g.primary_walk(
                    walk,
                    g.chosen_arrival(end.y * pre_mark.width + end.x)->Some_0,
                    start.y * pre_mark.width + start.x,
                )
                &&& forall|ci: int|
                    0 <= ci < pre_mark.cells.len() ==> ((#[trigger] g.cells[
                    ci]).is_on_primary_path <==> pre_mark.cells[ci].is_on_primary_path || exists|
                    i: int|
                        0 <= i < walk.len() && n_cell(#[trigger] walk[i]) == ci)
            };
        assert forall|ci: int|
            0 <= ci < g.cells.len() implies ((#[trigger] g.cells[ci]).is_on_primary_path
            <==> exists|i: int| 0 <= i < walk.len() && n_cell(#[trigger] walk[i]) == ci) by {
            assert(!pre_mark.cells[ci].is_on_primary_path);
        }
        let b = choose|b: int|
            {
                &&& g.valid_node(b)
                &&& n_cell(b) == end.y * pre_mark.width + end.x
                &&& #[trigger] g.weight(b) == result
                &&& forall|ci: int|
                    0 <= ci < pre_mark.cells.len() && (#[trigger] g.cells[
                    ci]).is_on_secondary_path && !pre_mark.cells[ci].is_on_secondary_path
                        ==> exists|v: int| n_cell(v) == ci && g.on_best_chain(v, b)
            };
        assert forall|ci: int|
            0 <= ci < g.cells.len() && (#[trigger] g.cells[ci]).is_on_secondary_path
            implies exists|v: int| n_cell(v) == ci && g.on_best_chain(v, b) by {
            assert(!pre_mark.cells[ci].is_on_secondary_path);
        }
    }
    Ok(answer)
}

} // verus!
