use vstd::prelude::*;
use vstd::arithmetic::div_mod::{lemma_fundamental_div_mod, lemma_fundamental_div_mod_converse};
use crate::direction::{spec_dir_index, spec_dir_of_index, Direction};
use crate::maze::{Kind, Maze};
use crate::pqueue::{pq_change_priority, pq_new, pq_pop, pq_push, pq_view, NodeQueue};
use crate::xy::XY;

verus! {

/// The cost of one forward step.
pub const MOVE_COST: i64 = 1;

/// The cost of one quarter turn in place.  The ratio of turn cost to
/// move cost is load-bearing for the domain and must not be altered.
pub const TURN_COST: i64 = 1000;

/// The sentinel cost of a node the relaxation has not reached.
pub const INFINITE_COST: i64 = i64::MAX;

/// The three kinds of edge leaving a route node.
#[derive(Debug, Clone, Copy, PartialEq, Eq, Structural)]
pub enum Turn {
    Forward,
    Left,
    Right,
}

/// An outgoing edge: the arena index of the node it reaches and its
/// cost.
#[derive(Debug, Clone, Copy, PartialEq, Eq, Structural)]
pub struct WeightedConnection {
    pub target: usize,
    pub weight: i64,
}

/// One route node: "standing on this cell, facing this direction".
/// Wall cells keep four inert placeholder entries without edges, so
/// the arena is addressed by plain index arithmetic.
#[derive(Debug, Clone, Copy)]
pub struct Route {
    pub dest_forward: Option<WeightedConnection>,
    pub dest_left: Option<WeightedConnection>,
    pub dest_right: Option<WeightedConnection>,
    pub src_forward: Option<usize>,
    pub src_left: Option<usize>,
    pub src_right: Option<usize>,
    pub node_weight: i64,
    pub is_on_path: bool,
}

/// Per-cell state: whether the cell is floor, and the two
/// reconstruction marks.
#[derive(Debug, Clone, Copy)]
pub struct CellState {
    pub floor: bool,
    pub is_on_primary_path: bool,
    pub is_on_secondary_path: bool,
}

/// The routing graph of a maze: four route nodes per cell in one
/// arena, plus the changeable-priority queue driving the relaxation.
pub struct MazeGraph {
    pub width: usize,
    pub height: usize,
    pub cells: Vec<CellState>,
    pub routes: Vec<Route>,
    pub nodes: NodeQueue,
}

impl Route {
    /// A fresh node: no edges yet, unreached, unmarked.
    pub fn new() -> (r: Route)
        ensures
            r == Route::spec_default(),
    {
        Route {
            dest_forward: None,
            dest_left: None,
            dest_right: None,
            src_forward: None,
            src_left: None,
            src_right: None,
            node_weight: INFINITE_COST,
            is_on_path: false,
        }
    }

    pub open spec fn spec_default() -> Route {
        Route {
            dest_forward: None,
            dest_left: None,
            dest_right: None,
            src_forward: None,
            src_left: None,
            src_right: None,
            node_weight: INFINITE_COST,
            is_on_path: false,
        }
    }
}

/// The direction index encoded in a node index.
pub open spec fn n_dir(id: int) -> int {
    id % 4
}

/// The cell index encoded in a node index.
pub open spec fn n_cell(id: int) -> int {
    id / 4
}

impl MazeGraph {
    pub open spec fn num_cells(self) -> int {
        self.width * self.height
    }

    pub open spec fn node_count(self) -> int {
        4 * self.num_cells()
    }

    pub open spec fn valid_node(self, id: int) -> bool {
        0 <= id < self.node_count()
    }

    pub open spec fn cell_row(self, ci: int) -> int {
        ci / (self.width as int)
    }

    pub open spec fn cell_col(self, ci: int) -> int {
        ci % (self.width as int)
    }

    pub open spec fn floor_node(self, id: int) -> bool {
        self.cells[n_cell(id)].floor
    }

    /// The direction a node faces.
    pub open spec fn node_dir(self, id: int) -> Direction {
        spec_dir_of_index(n_dir(id))
    }

    /// The cost of a node as recorded by the relaxation.
    pub open spec fn weight(self, id: int) -> int {
        self.routes[id].node_weight as int
    }

    /// The row one forward step from node `id` reaches.
    pub open spec fn fwd_row(self, id: int) -> int {
        self.cell_row(n_cell(id)) + self.node_dir(id).spec_offset_y()
    }

    /// The column one forward step from node `id` reaches.
    pub open spec fn fwd_col(self, id: int) -> int {
        self.cell_col(n_cell(id)) + self.node_dir(id).spec_offset_x()
    }

    pub open spec fn fwd_in_bounds(self, id: int) -> bool {
        &&& 0 <= self.fwd_row(id) < self.height
        &&& 0 <= self.fwd_col(id) < self.width
    }

    pub open spec fn fwd_cell(self, id: int) -> int {
        self.fwd_row(id) * (self.width as int) + self.fwd_col(id)
    }

    /// A forward edge leaves `id` exactly when the cell ahead exists
    /// and is floor.
    pub open spec fn fwd_exists(self, id: int) -> bool {
        self.fwd_in_bounds(id) && self.cells[self.fwd_cell(id)].floor
    }

    pub open spec fn fwd_target(self, id: int) -> int {
        self.fwd_cell(id) * 4 + n_dir(id)
    }

    /// The node on the same cell one quarter turn to the left.
    pub open spec fn left_target(self, id: int) -> int {
        n_cell(id) * 4 + spec_dir_index(self.node_dir(id).spec_counter_clockwise())
    }

    /// The node on the same cell one quarter turn to the right.
    pub open spec fn right_target(self, id: int) -> int {
        n_cell(id) * 4 + spec_dir_index(self.node_dir(id).spec_clockwise())
    }

    /// The row of the cell one step behind node `id`.
    pub open spec fn back_row(self, id: int) -> int {
        self.cell_row(n_cell(id)) - self.node_dir(id).spec_offset_y()
    }

    pub open spec fn back_col(self, id: int) -> int {
        self.cell_col(n_cell(id)) - self.node_dir(id).spec_offset_x()
    }

    pub open spec fn back_in_bounds(self, id: int) -> bool {
        &&& 0 <= self.back_row(id) < self.height
        &&& 0 <= self.back_col(id) < self.width
    }

    pub open spec fn back_cell(self, id: int) -> int {
        self.back_row(id) * (self.width as int) + self.back_col(id)
    }

    /// A forward edge enters `id` exactly when the cell behind exists
    /// and is floor.
    pub open spec fn back_exists(self, id: int) -> bool {
        self.back_in_bounds(id) && self.cells[self.back_cell(id)].floor
    }

    pub open spec fn back_source(self, id: int) -> int {
        self.back_cell(id) * 4 + n_dir(id)
    }

    /// The stored edges of node `id` are exactly the ones the maze
    /// dictates: forward to the floor cell ahead at move cost, left
    /// and right turns in place at turn cost, and the back-references
    /// are their exact inverses.  Wall placeholders hold nothing.
    pub open spec fn route_ok(self, id: int) -> bool {
        let rt = self.routes[id];
        if self.floor_node(id) {
            &&& (if self.fwd_exists(id) {
                rt.dest_forward matches Some(wc) && wc.target == self.fwd_target(id) && wc.weight
                    == MOVE_COST
            } else {
                rt.dest_forward is None
            })
            &&& rt.dest_left matches Some(wc) && wc.target == self.left_target(id) && wc.weight
                == TURN_COST
            &&& rt.dest_right matches Some(wc) && wc.target == self.right_target(id) && wc.weight
                == TURN_COST
            &&& (if self.back_exists(id) {
                rt.src_forward matches Some(src) && src == self.back_source(id)
            } else {
                rt.src_forward is None
            })
            &&& rt.src_left matches Some(src) && src == self.right_target(id)
            &&& rt.src_right matches Some(src) && src == self.left_target(id)
        } else {
            &&& rt.dest_forward is None
            &&& rt.dest_left is None
            &&& rt.dest_right is None
            &&& rt.src_forward is None
            &&& rt.src_left is None
            &&& rt.src_right is None
            &&& rt.node_weight == INFINITE_COST
            &&& rt.is_on_path == false
        }
    }

    /// Structural well-formedness: sound dimensions, one cell state
    /// per cell, four route nodes per cell, every node's edges as the
    /// maze dictates, and no marks on wall cells.
    pub open spec fn wf(self) -> bool {
        &&& 1 <= self.width
        &&& 1 <= self.height
        &&& self.num_cells() <= 0x8000_0000
        &&& 4 * self.num_cells() <= usize::MAX
        &&& self.cells.len() == self.num_cells()
        &&& self.routes.len() == self.node_count()
        &&& forall|id: int| self.valid_node(id) ==> #[trigger] self.route_ok(id)
        &&& forall|ci: int|
            0 <= ci < self.cells.len() && !self.cells[ci].floor
                ==> !(#[trigger] self.cells[ci]).is_on_primary_path
                && !self.cells[ci].is_on_secondary_path
    }

    /// The queue agrees with the arena: it holds only floor nodes and
    /// each queued priority is the node's recorded cost.
    pub open spec fn queue_ok(self) -> bool {
        &&& pq_view(self.nodes).dom().finite()
        &&& forall|k: usize|
            #[trigger] pq_view(self.nodes).contains_key(k) ==> self.valid_node(k as int)
                && self.floor_node(k as int) && pq_view(self.nodes)[k] == self.weight(k as int)
    }
}

/// Row-major cell indexing round-trips with its row and column.
pub proof fn lemma_rc_to_ci(w: int, h: int, r: int, c: int)
    requires
        1 <= w,
        0 <= r < h,
        0 <= c < w,
    ensures
        0 <= r * w + c < w * h,
        (r * w + c) / w == r,
        (r * w + c) % w == c,
{
    assert(0 <= r * w + c && r * w + c < w * h) by (nonlinear_arith)
        requires
            1 <= w,
            0 <= r < h,
            0 <= c < w,
    ;
    lemma_fundamental_div_mod_converse(r * w + c, w, r, c);
}

/// Node indexing round-trips with its cell index and direction index.
proof fn lemma_ci_di_to_id(nc: int, ci: int, di: int)
    requires
        0 <= ci < nc,
        0 <= di < 4,
    ensures
        0 <= ci * 4 + di < 4 * nc,
        n_cell(ci * 4 + di) == ci,
        n_dir(ci * 4 + di) == di,
{
    assert(0 <= ci * 4 + di && ci * 4 + di < 4 * nc) by (nonlinear_arith)
        requires
            0 <= ci < nc,
            0 <= di < 4,
    ;
    lemma_fundamental_div_mod_converse(ci * 4 + di, 4, ci, di);
}

impl MazeGraph {
    /// A valid node index decomposes into its cell's row and column
    /// and its direction index, all in range.
    pub proof fn lemma_node_fields(self, id: int)
        requires
            1 <= self.width,
            1 <= self.height,
            self.valid_node(id),
        ensures
            0 <= n_dir(id) < 4,
            0 <= n_cell(id) < self.num_cells(),
            0 <= self.cell_row(n_cell(id)) < self.height,
            0 <= self.cell_col(n_cell(id)) < self.width,
            (self.cell_row(n_cell(id)) * (self.width as int) + self.cell_col(n_cell(id))) * 4
                + n_dir(id) == id,
            self.cell_row(n_cell(id)) * (self.width as int) + self.cell_col(n_cell(id))
                == n_cell(id),
    {
        let w = self.width as int;
        let nc = self.num_cells();
        lemma_fundamental_div_mod(id, 4);
        assert(0 <= n_dir(id) < 4) by {
            assert(0 <= id % 4 < 4) by (nonlinear_arith)
                requires 0 <= id,
            ;
        }
        assert(0 <= n_cell(id) < nc) by (nonlinear_arith)
            requires
                0 <= id < 4 * nc,
                id == 4 * n_cell(id) + n_dir(id),
                0 <= n_dir(id) < 4,
        ;
        let ci = n_cell(id);
        lemma_fundamental_div_mod(ci, w);
        assert(0 <= self.cell_col(ci) < w) by {
            assert(0 <= ci % w < w) by (nonlinear_arith)
                requires 0 <= ci, 1 <= w,
            ;
        }
        assert(0 <= self.cell_row(ci) < self.height) by (nonlinear_arith)
            requires
                0 <= ci < w * self.height,
                ci == w * self.cell_row(ci) + self.cell_col(ci),
                0 <= self.cell_col(ci) < w,
                1 <= w,
        ;
    }

    /// Builds the routing graph of a maze: four route nodes per floor
    /// cell wired with forward and turn edges and their exact
    /// back-references, every node at the sentinel cost, every floor
    /// node queued at the sentinel priority, and nothing marked yet.
    pub fn new(maze: &Maze) -> (g: MazeGraph)
        requires
            maze.wf(),
            maze.map.width * maze.map.height <= 0x8000_0000,
            4 * (maze.map.width * maze.map.height) <= usize::MAX,
        ensures
            g.wf(),
            g.width == maze.map.width,
            g.height == maze.map.height,
            forall|ci: int|
                0 <= ci < g.num_cells() ==> (#[trigger] g.cells[ci]).floor == (
                maze.map.cells[g.cell_row(ci)][g.cell_col(ci)] == Kind::Floor)
                    && !g.cells[ci].is_on_primary_path && !g.cells[ci].is_on_secondary_path,
            forall|id: int|
                g.valid_node(id) ==> g.weight(id) == INFINITE_COST && !(#[trigger] g.routes[
                id]).is_on_path,
            g.queue_ok(),
            forall|id: int|
                g.valid_node(id) && g.floor_node(id) ==> pq_view(g.nodes).contains_key(
                    id as usize),
    {
        let map = create_cells_for_maze(maze);
        let width = maze.col_count();
        let height = maze.row_count();
        let total = width * height;
        let mut routes: Vec<Route> = Vec::new();
        while routes.len() < 4 * total
            invariant
                4 * total <= usize::MAX,
                routes.len() <= 4 * total,
                forall|i: int| 0 <= i < routes.len() ==> routes[i] == Route::spec_default(),
            decreases 4 * total - routes.len(),
        {
            routes.push(Route::new());
        }
        let mut g = MazeGraph { width, height, cells: map, routes, nodes: pq_new() };
        g.populate_connections();
        g
    }
}

/// One cell state per maze cell in row-major order: floor flag from
/// the maze, no marks.
fn create_cells_for_maze(maze: &Maze) -> (cells: Vec<CellState>)
    requires
        maze.wf(),
        maze.map.width * maze.map.height <= 0x8000_0000,
    ensures
        cells.len() == maze.map.width * maze.map.height,
        forall|ci: int|
            0 <= ci < cells.len() ==> (#[trigger] cells[ci]).floor == (maze.map.cells[ci / (
            maze.map.width as int)][ci % (maze.map.width as int)] == Kind::Floor)
                && !cells[ci].is_on_primary_path && !cells[ci].is_on_secondary_path,
{
    let width = maze.col_count();
    let height = maze.row_count();
    let mut cells: Vec<CellState> = Vec::new();
    let mut r: usize = 0;
    while r < height
        invariant
            maze.wf(),
            width == maze.map.width,
            height == maze.map.height,
            (width as int) * (height as int) <= 0x8000_0000,
            r <= height,
            cells.len() == r * width,
            forall|ci: int|
                0 <= ci < cells.len() ==> (#[trigger] cells[ci]).floor == (maze.map.cells[ci / (
                width as int)][ci % (width as int)] == Kind::Floor)
                    && !cells[ci].is_on_primary_path && !cells[ci].is_on_secondary_path,
        decreases height - r,
    {
        proof {
            assert((r + 1) * width == r * width + width) by (nonlinear_arith);
            assert(r * width + width <= width * height) by (nonlinear_arith)
                requires r < height, 0 <= width,
            ;
        }
        let mut c: usize = 0;
        while c < width
            invariant
                maze.wf(),
                width == maze.map.width,
                height == maze.map.height,
                r < height,
                c <= width,
                r * width + width <= width * height,
                (width as int) * (height as int) <= 0x8000_0000,
                cells.len() == r * width + c,
                forall|ci: int|
                    0 <= ci < cells.len() ==> (#[trigger] cells[ci]).floor == (maze.map.cells[ci
                        / (width as int)][ci % (width as int)] == Kind::Floor)
                        && !cells[ci].is_on_primary_path && !cells[ci].is_on_secondary_path,
            decreases width - c,
        {
            let kind = maze.at(XY::from_rc(r, c));
            let is_floor = *kind == Kind::Floor;
            cells.push(CellState {
                floor: is_floor,
                is_on_primary_path: false,
                is_on_secondary_path: false,
            });
            proof {
                lemma_rc_to_ci(width as int, height as int, r as int, c as int);
            }
            c = c + 1;
        }
        r = r + 1;
    }
    proof {
        assert(cells.len() == width * height) by (nonlinear_arith)
            requires cells.len() == (height as int) * (width as int),
        ;
    }
    cells
}


impl MazeGraph {
    /// Wires every floor node's edges and exact back-references, and
    /// queues each floor node at the sentinel priority.
    fn populate_connections(&mut self)
        requires
            1 <= old(self).width,
            1 <= old(self).height,
            old(self).num_cells() <= 0x8000_0000,
            4 * old(self).num_cells() <= usize::MAX,
            old(self).cells.len() == old(self).num_cells(),
            old(self).routes.len() == old(self).node_count(),
            forall|i: int|
                0 <= i < old(self).routes.len() ==> old(self).routes[i]
                    == Route::spec_default(),
            forall|ci: int|
                0 <= ci < old(self).cells.len() ==> !(#[trigger] old(
                self).cells[ci]).is_on_primary_path && !old(self).cells[ci].is_on_secondary_path,
            pq_view(old(self).nodes).dom().finite(),
            pq_view(old(self).nodes).dom().len() == 0,
        ensures
            final(self).wf(),
            final(self).width == old(self).width,
            final(self).height == old(self).height,
            final(self).cells == old(self).cells,
            forall|id: int|
                final(self).valid_node(id) ==> final(self).weight(id) == INFINITE_COST && !(
                #[trigger] final(self).routes[id]).is_on_path,
            final(self).queue_ok(),
            forall|id: int|
                final(self).valid_node(id) && final(self).floor_node(id) ==> pq_view(final(
                self).nodes).contains_key(id as usize),
    {
        proof {
            assert(pq_view(self.nodes).dom() =~= Set::<usize>::empty()) by {
                pq_view(self.nodes).dom().lemma_len0_is_empty();
            }
        }
        proof {
            assert(self.width <= 0x8000_0000 && self.height <= 0x8000_0000) by (nonlinear_arith)
                requires
                    1 <= self.width,
                    1 <= self.height,
                    (self.width as int) * (self.height as int) <= 0x8000_0000,
            ;
        }
        let width = self.width;
        let height = self.height;
        let total = width * height;
        let mut ci: usize = 0;
        while ci < total
            invariant
                1 <= width <= 0x8000_0000,
                1 <= height <= 0x8000_0000,
                width == self.width,
                height == self.height,
                total == self.num_cells(),
                self.num_cells() <= 0x8000_0000,
                4 * self.num_cells() <= usize::MAX,
                self.cells.len() == self.num_cells(),
                self.cells == old(self).cells,
                self.routes.len() == self.node_count(),
                ci <= total,
                forall|id: int| 4 * ci <= id < self.routes.len() ==> self.routes[id]
                    == Route::spec_default(),
                forall|id: int| 0 <= id < 4 * ci ==> #[trigger] self.route_ok(id),
                forall|id: int|
                    0 <= id < self.routes.len() ==> (#[trigger] self.routes[id]).node_weight
                        == INFINITE_COST && !self.routes[id].is_on_path,
                pq_view(self.nodes).dom().finite(),
                forall|k: usize|
                    #[trigger] pq_view(self.nodes).contains_key(k) <==> (k as int) < 4 * ci
                        && self.floor_node(k as int) && 0 <= (k as int),
                forall|k: usize|
                    pq_view(self.nodes).contains_key(k) ==> pq_view(self.nodes)[k]
                        == INFINITE_COST,
            decreases total - ci,
        {
            let row = ci / width;
            let col = ci % width;
            proof {
                lemma_fundamental_div_mod(ci as int, width as int);
                assert(0 <= (ci as int) % (width as int) < width) by (nonlinear_arith)
                    requires 0 <= (ci as int), 1 <= (width as int),
                ;
                assert(0 <= row < height) by (nonlinear_arith)
                    requires
                        0 <= (ci as int) && (ci as int) < (width as int) * (height as int),
                        (ci as int) == (width as int) * (row as int) + (col as int),
                        0 <= (col as int) && (col as int) < (width as int),
                        1 <= (width as int),
                ;
                lemma_rc_to_ci(width as int, height as int, row as int, col as int);
            }
            if self.cells[ci].floor {
                let mut di: usize = 0;
                while di < 4
                    invariant
                        1 <= width <= 0x8000_0000,
                        1 <= height <= 0x8000_0000,
                        width == self.width,
                        height == self.height,
                        total == self.num_cells(),
                        self.num_cells() <= 0x8000_0000,
                        4 * self.num_cells() <= usize::MAX,
                        self.cells.len() == self.num_cells(),
                        self.cells == old(self).cells,
                        self.routes.len() == self.node_count(),
                        ci < total,
                        di <= 4,
                        ci == row * width + col,
                        row < height,
                        col < width,
                        self.cell_row(ci as int) == row,
                        self.cell_col(ci as int) == col,
                        self.cells[ci as int].floor,
                        forall|id: int|
                            4 * ci + di <= id < self.routes.len() ==> self.routes[id]
                                == Route::spec_default(),
                        forall|id: int| 0 <= id < 4 * ci + di ==> #[trigger] self.route_ok(id),
                        forall|id: int|
                            0 <= id < self.routes.len() ==> (#[trigger] self.routes[
                            id]).node_weight == INFINITE_COST && !self.routes[id].is_on_path,
                        pq_view(self.nodes).dom().finite(),
                        forall|k: usize|
                            #[trigger] pq_view(self.nodes).contains_key(k) <==> (k as int) < 4
                                * ci + di && self.floor_node(k as int) && 0 <= (k as int),
                        forall|k: usize|
                            pq_view(self.nodes).contains_key(k) ==> pq_view(self.nodes)[k]
                                == INFINITE_COST,
                    decreases 4 - di,
                {
                    let id = ci * 4 + di;
                    proof {
                        lemma_ci_di_to_id(self.num_cells(), ci as int, di as int);
                    }
                    let dir = Direction::of_index(di);
                    let li = dir.counter_clockwise().index();
                    let ri = dir.clockwise().index();
                    proof {
                        assert(self.node_dir(id as int) == dir);
                        assert(self.fwd_row(id as int) == row + dir.spec_offset_y());
                        assert(self.fwd_col(id as int) == col + dir.spec_offset_x());
                        assert(self.back_row(id as int) == row - dir.spec_offset_y());
                        assert(self.back_col(id as int) == col - dir.spec_offset_x());
                    }

                    let dest_forward: Option<WeightedConnection> = self
                        .forward_connection(row, col, di);
                    let src_forward: Option<usize> = self.forward_source(row, col, di);
                    proof {
                        lemma_ci_di_to_id(self.num_cells(), ci as int, li as int);
                        lemma_ci_di_to_id(self.num_cells(), ci as int, ri as int);
                    }
                    let ghost prev = *self;
                    self.routes.set(id, Route {
                        dest_forward,
                        dest_left: Some(WeightedConnection { target: ci * 4 + li, weight: TURN_COST }),
                        dest_right: Some(WeightedConnection { target: ci * 4 + ri, weight: TURN_COST }),
                        src_forward,
                        src_left: Some(ci * 4 + ri),
                        src_right: Some(ci * 4 + li),
                        node_weight: INFINITE_COST,
                        is_on_path: false,
                    });
                    pq_push(&mut self.nodes, id, INFINITE_COST);
                    proof {
                        assert(n_cell(id as int) == ci && n_dir(id as int) == di);
                        assert(self.node_dir(id as int) == dir);
                        assert(self.fwd_row(id as int) == row + dir.spec_offset_y());
                        assert(self.fwd_col(id as int) == col + dir.spec_offset_x());
                        assert(self.back_row(id as int) == row - dir.spec_offset_y());
                        assert(self.back_col(id as int) == col - dir.spec_offset_x());
                        assert(self.fwd_cell(id as int) == self.fwd_row(id as int) * (width
                            as int) + self.fwd_col(id as int));
                        assert(self.back_cell(id as int) == self.back_row(id as int) * (width
                            as int) + self.back_col(id as int));
                        assert(self.left_target(id as int) == ci * 4 + li);
                        assert(self.right_target(id as int) == ci * 4 + ri);
                        assert(self.cells == prev.cells);
                        assert(self.fwd_cell(id as int) == prev.fwd_cell(id as int));
                        assert(self.fwd_exists(id as int) == prev.fwd_exists(id as int));
                        assert(self.fwd_target(id as int) == prev.fwd_target(id as int));
                        assert(self.back_cell(id as int) == prev.back_cell(id as int));
                        assert(self.back_exists(id as int) == prev.back_exists(id as int));
                        assert(self.back_source(id as int) == prev.back_source(id as int));
                        let rt = self.routes[id as int];
                        assert(rt.dest_left matches Some(wc) && wc.target == self.left_target(
                            id as int) && wc.weight == TURN_COST);
                        assert(rt.dest_right matches Some(wc) && wc.target == self.right_target(
                            id as int) && wc.weight == TURN_COST);
                        assert(rt.src_left matches Some(src) && src == self.right_target(
                            id as int));
                        assert(rt.src_right matches Some(src) && src == self.left_target(
                            id as int));
                        assert(if self.fwd_exists(id as int) {
                            rt.dest_forward matches Some(wc) && wc.target == self.fwd_target(
                                id as int) && wc.weight == MOVE_COST
                        } else {
                            rt.dest_forward is None
                        });
                        assert(if self.back_exists(id as int) {
                            rt.src_forward matches Some(src) && src == self.back_source(id as int)
                        } else {
                            rt.src_forward is None
                        });
                        assert(self.route_ok(id as int));
                        assert forall|id2: int| 0 <= id2 < 4 * ci + di implies #[trigger] self
                            .route_ok(id2) by {
                            assert(prev.route_ok(id2));
                            assert(self.cells == prev.cells);
                            assert(self.routes[id2] == prev.routes[id2]);
                            assert(self.route_ok(id2));
                        }
                    }
                    di = di + 1;
                }
            } else {
                proof {
                    assert forall|id2: int| 0 <= id2 < 4 * (ci as int + 1) implies #[trigger] self
                        .route_ok(id2) by {
                        if 4 * ci <= id2 {
                            lemma_fundamental_div_mod(id2, 4);
                            assert(0 <= id2 % 4 < 4) by (nonlinear_arith)
                                requires 0 <= id2,
                            ;
                            assert(n_cell(id2) == ci) by (nonlinear_arith)
                                requires
                                    4 * ci <= id2 < 4 * (ci as int + 1),
                                    id2 == 4 * n_cell(id2) + n_dir(id2),
                                    0 <= n_dir(id2) < 4,
                            ;
                            assert(!self.floor_node(id2));
                            assert(self.routes[id2] == Route::spec_default());
                        }
                    }
                    assert forall|k: usize|
                        #[trigger] pq_view(self.nodes).contains_key(k) <==> ((k as int) < 4 * (ci
                            as int + 1) && self.floor_node(k as int) && 0 <= (k as int)) by {
                        if (k as int) < 4 * (ci as int + 1) && self.floor_node(k as int) && 0 <= (
                        k as int) && !((k as int) < 4 * ci) {
                            lemma_fundamental_div_mod(k as int, 4);
                            assert(0 <= ((k as int) % 4) && ((k as int) % 4) < 4) by (nonlinear_arith)
                                requires 0 <= (k as int),
                            ;
                            assert(n_cell(k as int) == ci) by (nonlinear_arith)
                                requires
                                    4 * ci <= (k as int) && (k as int) < 4 * ((ci as int) + 1),
                                    (k as int) == 4 * n_cell(k as int) + n_dir(k as int),
                                    0 <= n_dir(k as int) < 4,
                            ;
                            assert(false);
                        }
                    }
                }
            }
            ci = ci + 1;
        }
        proof {
            assert(self.wf());
            assert(self.queue_ok());
        }
    }
}


impl MazeGraph {
    /// The forward edge leaving the node on cell `(row, col)` facing
    /// the direction with index `di`: present exactly when the cell
    /// one step ahead exists and is floor.
    fn forward_connection(&self, row: usize, col: usize, di: usize) -> (r: Option<
        WeightedConnection,
    >)
        requires
            1 <= self.width <= 0x8000_0000,
            1 <= self.height <= 0x8000_0000,
            self.num_cells() <= 0x8000_0000,
            4 * self.num_cells() <= usize::MAX,
            self.cells.len() == self.num_cells(),
            row < self.height,
            col < self.width,
            di < 4,
        ensures
            ({
                let id = (row * self.width + col) * 4 + di;
                if self.fwd_exists(id as int) {
                    r matches Some(wc) && wc.target == self.fwd_target(id as int) && wc.weight
                        == MOVE_COST
                } else {
                    r is None
                }
            }),
    {
        let width = self.width;
        let height = self.height;
        proof {
            lemma_rc_to_ci(width as int, height as int, row as int, col as int);
        }
        let ci = row * width + col;
        proof {
            lemma_ci_di_to_id(self.num_cells(), ci as int, di as int);
        }
        let id = ci * 4 + di;
        let ghost idi = id as int;
        let dir = Direction::of_index(di);
        let off = dir.as_offset();
        proof {
            assert(self.node_dir(idi) == dir);
            assert(self.fwd_row(idi) == row + dir.spec_offset_y());
            assert(self.fwd_col(idi) == col + dir.spec_offset_x());
        }
        let nr = row as i64 + off.y;
        let ncol = col as i64 + off.x;
        if 0 <= nr && nr < height as i64 && 0 <= ncol && ncol < width as i64 {
            proof {
                lemma_rc_to_ci(width as int, height as int, nr as int, ncol as int);
            }
            let nci = (nr as usize) * width + (ncol as usize);
            proof {
                assert(nci as int == self.fwd_cell(idi));
            }
            if self.cells[nci].floor {
                proof {
                    lemma_ci_di_to_id(self.num_cells(), nci as int, di as int);
                    assert((nci * 4 + di) as int == self.fwd_target(idi));
                    assert(self.fwd_exists(idi));
                }
                Some(WeightedConnection { target: nci * 4 + di, weight: MOVE_COST })
            } else {
                proof {
                    assert(!self.fwd_exists(idi));
                }
                None
            }
        } else {
            proof {
                assert(!self.fwd_in_bounds(idi));
            }
            None
        }
    }

    /// The forward back-reference entering the node on cell
    /// `(row, col)` facing the direction with index `di`: the node one
    /// step behind, present exactly when that cell exists and is
    /// floor.
    fn forward_source(&self, row: usize, col: usize, di: usize) -> (r: Option<usize>)
        requires
            1 <= self.width <= 0x8000_0000,
            1 <= self.height <= 0x8000_0000,
            self.num_cells() <= 0x8000_0000,
            4 * self.num_cells() <= usize::MAX,
            self.cells.len() == self.num_cells(),
            row < self.height,
            col < self.width,
            di < 4,
        ensures
            ({
                let id = (row * self.width + col) * 4 + di;
                if self.back_exists(id as int) {
                    r matches Some(src) && src == self.back_source(id as int)
                } else {
                    r is None
                }
            }),
    {
        let width = self.width;
        let height = self.height;
        proof {
            lemma_rc_to_ci(width as int, height as int, row as int, col as int);
        }
        let ci = row * width + col;
        proof {
            lemma_ci_di_to_id(self.num_cells(), ci as int, di as int);
        }
        let id = ci * 4 + di;
        let ghost idi = id as int;
        let dir = Direction::of_index(di);
        let off = dir.as_offset();
        proof {
            assert(self.node_dir(idi) == dir);
            assert(self.back_row(idi) == row - dir.spec_offset_y());
            assert(self.back_col(idi) == col - dir.spec_offset_x());
        }
        let br = row as i64 - off.y;
        let bcol = col as i64 - off.x;
        if 0 <= br && br < height as i64 && 0 <= bcol && bcol < width as i64 {
            proof {
                lemma_rc_to_ci(width as int, height as int, br as int, bcol as int);
            }
            let bci = (br as usize) * width + (bcol as usize);
            proof {
                assert(bci as int == self.back_cell(idi));
            }
            if self.cells[bci].floor {
                proof {
                    lemma_ci_di_to_id(self.num_cells(), bci as int, di as int);
                    assert((bci * 4 + di) as int == self.back_source(idi));
                    assert(self.back_exists(idi));
                }
                Some(bci * 4 + di)
            } else {
                proof {
                    assert(!self.back_exists(idi));
                }
                None
            }
        } else {
            proof {
                assert(!self.back_in_bounds(idi));
            }
            None
        }
    }
}


/// Two route nodes that agree on everything but the recorded cost.
pub open spec fn same_shape(a: Route, b: Route) -> bool {
    &&& a.dest_forward == b.dest_forward
    &&& a.dest_left == b.dest_left
    &&& a.dest_right == b.dest_right
    &&& a.src_forward == b.src_forward
    &&& a.src_left == b.src_left
    &&& a.src_right == b.src_right
    &&& a.is_on_path == b.is_on_path
}

impl MazeGraph {
    /// The stored outgoing edge of `id` for the given kind of move.
    pub open spec fn spec_dest(self, id: int, turn: Turn) -> Option<WeightedConnection> {
        match turn {
            Turn::Forward => self.routes[id].dest_forward,
            Turn::Left => self.routes[id].dest_left,
            Turn::Right => self.routes[id].dest_right,
        }
    }

    /// The stored back-reference of `id` for the given kind of move.
    pub open spec fn spec_src(self, id: int, turn: Turn) -> Option<usize> {
        match turn {
            Turn::Forward => self.routes[id].src_forward,
            Turn::Left => self.routes[id].src_left,
            Turn::Right => self.routes[id].src_right,
        }
    }

    /// The ceiling every finite recorded cost stays under: the worst
    /// path visits each node once, paying at most a turn each time.
    pub open spec fn weight_cap(self) -> int {
        1001 * self.node_count()
    }

    /// Every recorded cost is the sentinel or lies between zero and
    /// the ceiling.
    pub open spec fn weights_bounded(self) -> bool {
        forall|id: int|
            self.valid_node(id) ==> #[trigger] self.weight(id) == INFINITE_COST || (0
                <= self.weight(id) <= self.weight_cap())
    }

    /// Every edge of a well-formed floor node leads to a valid floor
    /// node, at move or turn cost, and every back-reference comes from
    /// a valid floor node.
    pub proof fn lemma_targets_ok(self, id: int, turn: Turn)
        requires
            self.wf(),
            self.valid_node(id),
            self.floor_node(id),
        ensures
            self.spec_dest(id, turn) matches Some(wc) ==> self.valid_node(wc.target as int)
                && self.floor_node(wc.target as int) && (wc.weight == MOVE_COST || wc.weight
                == TURN_COST) && 1 <= wc.weight <= TURN_COST,
            self.spec_src(id, turn) matches Some(src) ==> self.valid_node(src as int)
                && self.floor_node(src as int),
    {
        let w = self.width as int;
        let h = self.height as int;
        assert(self.route_ok(id));
        self.lemma_node_fields(id);
        let ci = n_cell(id);
        let di = n_dir(id);
        if self.fwd_exists(id) {
            lemma_rc_to_ci(w, h, self.fwd_row(id), self.fwd_col(id));
            lemma_ci_di_to_id(self.num_cells(), self.fwd_cell(id), di);
        }
        if self.back_exists(id) {
            lemma_rc_to_ci(w, h, self.back_row(id), self.back_col(id));
            lemma_ci_di_to_id(self.num_cells(), self.back_cell(id), di);
        }
        lemma_ci_di_to_id(self.num_cells(), ci, spec_dir_index(
            self.node_dir(id).spec_counter_clockwise()));
        lemma_ci_di_to_id(self.num_cells(), ci, spec_dir_index(
            self.node_dir(id).spec_clockwise()));
    }

    /// Lowers the recorded cost of `id` to `weight` when that is an
    /// improvement, and refreshes the node's queued priority; a node
    /// that already does as well, and a wall placeholder, keep their
    /// cost.  A cost never increases here: this is the monotonicity
    /// the relaxation promises.
    fn reduce_node_weight(&mut self, id: usize, weight: i64)
        requires
            old(self).wf(),
            old(self).queue_ok(),
            old(self).valid_node(id as int),
            0 <= weight,
        ensures
            final(self).wf(),
            final(self).queue_ok(),
            final(self).width == old(self).width,
            final(self).height == old(self).height,
            final(self).cells == old(self).cells,
            final(self).routes.len() == old(self).routes.len(),
            forall|id2: int|
                old(self).valid_node(id2) ==> same_shape(
                    #[trigger] final(self).routes[id2], old(self).routes[id2]),
            forall|id2: int|
                old(self).valid_node(id2) && id2 != id ==> #[trigger] final(self).weight(id2)
                    == old(self).weight(id2),
            final(self).weight(id as int) == (if old(self).floor_node(id as int) {
                if old(self).weight(id as int) <= weight {
                    old(self).weight(id as int)
                } else {
                    weight as int
                }
            } else {
                old(self).weight(id as int)
            }),
            pq_view(final(self).nodes).dom() == pq_view(old(self).nodes).dom(),
    {
        proof {
            self.lemma_node_fields(id as int);
        }
        let ci = id / 4;
        if self.cells[ci].floor {
            let current = self.routes[id].node_weight;
            if current <= weight {
                return ;
            }
            let ghost prev = *self;
            let mut rt = self.routes[id];
            rt.node_weight = weight;
            self.routes.set(id, rt);
            proof {
                assert(same_shape(self.routes[id as int], prev.routes[id as int]));
                assert forall|id2: int| self.valid_node(id2) implies #[trigger] self.route_ok(
                    id2) by {
                    assert(prev.route_ok(id2));
                    if id2 != id {
                        assert(self.routes[id2] == prev.routes[id2]);
                    }
                }
                assert(self.wf());
            }
        }
        let ghost mid = *self;
        pq_change_priority(&mut self.nodes, id, weight);
        proof {
            assert(mid.wf());
            mid.lemma_same_but_queue(*self);
            if pq_view(mid.nodes).contains_key(id) {
                assert(pq_view(self.nodes) == pq_view(mid.nodes).insert(id, weight as int));
                assert(pq_view(self.nodes).dom() =~= pq_view(mid.nodes).dom());
            }
            assert(self.queue_ok());
        }
    }

    /// The improvement the given move out of the popped node offers:
    /// the edge's destination and the cost of reaching it through the
    /// popped node, when that beats the destination's recorded cost.
    fn find_updates_via(&self, node_id: usize, turn: Turn, prio: i64) -> (r: Option<(usize, i64)>)
        requires
            self.wf(),
            self.valid_node(node_id as int),
            self.floor_node(node_id as int),
            0 <= prio,
            prio + TURN_COST <= i64::MAX,
        ensures
            match r {
                Some(update) => {
                    &&& self.spec_dest(node_id as int, turn) matches Some(wc) && update.0
                        == wc.target && update.1 == prio + wc.weight
                    &&& (update.1 as int) < self.weight(update.0 as int)
                    &&& self.valid_node(update.0 as int)
                    &&& self.floor_node(update.0 as int)
                    &&& prio < update.1 <= prio + TURN_COST
                },
                None => match self.spec_dest(node_id as int, turn) {
                    Some(wc) => prio + wc.weight >= self.weight(wc.target as int),
                    None => true,
                },
            },
    {
        proof {
            self.lemma_targets_ok(node_id as int, turn);
        }
        let dest = match turn {
            Turn::Forward => self.routes[node_id].dest_forward,
            Turn::Left => self.routes[node_id].dest_left,
            Turn::Right => self.routes[node_id].dest_right,
        };
        match dest {
            Some(connection) => {
                let target_score_through_here = prio + connection.weight;
                if target_score_through_here < self.routes[connection.target].node_weight {
                    Some((connection.target, target_score_through_here))
                } else {
                    None
                }
            },
            None => None,
        }
    }

    /// The label-correcting shortest-path sweep: starting from the
    /// start cell facing east at cost zero, repeatedly pops a node of
    /// least queued cost and offers each neighbour the popped cost
    /// plus the edge weight, lowering costs only.  Stops once only
    /// unreachable nodes remain.  The outcome is a checked relaxation
    /// result (`costs_good`): no edge overshoots and every reached
    /// node is achieved through a predecessor — which, by
    /// `lemma_checked_costs_are_shortest`, makes every recorded cost
    /// the true least walk cost from the start node.
    pub fn identify_shortest_connections(&mut self, start: XY)
        requires
            old(self).wf(),
            old(self).queue_ok(),
            0 <= start.x < old(self).width,
            0 <= start.y < old(self).height,
            old(self).cells[start.y * old(self).width + start.x].floor,
            forall|id: int| old(self).valid_node(id) ==> #[trigger] old(self).weight(id)
                == INFINITE_COST,
            forall|id: int|
                old(self).valid_node(id) && old(self).floor_node(id) ==> pq_view(old(
                self).nodes).contains_key(id as usize),
        ensures
            final(self).wf(),
            final(self).queue_ok(),
            final(self).width == old(self).width,
            final(self).height == old(self).height,
            final(self).cells == old(self).cells,
            final(self).routes.len() == old(self).routes.len(),
            forall|id2: int|
                old(self).valid_node(id2) ==> same_shape(
                    #[trigger] final(self).routes[id2], old(self).routes[id2]),
            forall|id2: int|
                old(self).valid_node(id2) ==> #[trigger] final(self).weight(id2) <= old(
                self).weight(id2),
            final(self).weights_bounded(),
            final(self).weight(final(self).start_node(start)) == 0,
            final(self).costs_good(start),
    {
        proof {
            lemma_rc_to_ci(self.width as int, self.height as int, start.y as int, start.x as int);
        }
        let sci = (start.y as usize) * self.width + (start.x as usize);
        proof {
            lemma_ci_di_to_id(self.num_cells(), sci as int, 2);
        }
        let sid = sci * 4 + Direction::East.index();
        self.reduce_node_weight(sid, 0);
        let ghost orig = *old(self);
        let ghost n0 = pq_view(self.nodes).dom().len() as int;
        let ghost mut popped: int = 0;
        proof {
            reveal(MazeGraph::settled_fixpoint_except);
            reveal(MazeGraph::settled_below_queue);
            reveal(MazeGraph::achievable_via_settled);
            lemma_bounded_set_len(pq_view(self.nodes).dom(), self.node_count());
            assert forall|s: int| !(#[trigger] self.settled(s)) by {
                if self.settled(s) {
                    assert(orig.valid_node(s) && orig.floor_node(s));
                    assert(pq_view(orig.nodes).contains_key(s as usize));
                }
            }
            assert forall|v: int|
                self.valid_node(v) && #[trigger] self.weight(v) < INFINITE_COST implies v
                == sid as int by {
                assert(orig.weight(v) == INFINITE_COST);
            }
            assert(self.achievable_via_settled(start));
            assert(self.settled_below_queue());
            assert(self.settled_fixpoint_except(-1));
        }
        loop
            invariant_except_break
                pq_view(self.nodes).dom().len() + popped == n0,
                forall|s: int| #[trigger] self.settled(s) ==> self.weight(s) < INFINITE_COST,
            invariant
                self.wf(),
                self.queue_ok(),
                self.width == orig.width,
                self.height == orig.height,
                self.cells == orig.cells,
                self.routes.len() == orig.routes.len(),
                forall|id2: int|
                    orig.valid_node(id2) ==> same_shape(
                        #[trigger] self.routes[id2], orig.routes[id2]),
                0 <= popped,
                n0 <= self.node_count(),
                forall|id2: int|
                    self.valid_node(id2) ==> #[trigger] self.weight(id2) == INFINITE_COST || (0
                        <= self.weight(id2) <= 1001 * popped),
                sid == self.start_node(start),
                self.valid_node(sid as int),
                self.weight(sid as int) == 0,
                self.settled_below_queue(),
                self.achievable_via_settled(start),
                self.settled_fixpoint_except(-1),
            ensures
                self.wf(),
                self.queue_ok(),
                self.width == orig.width,
                self.height == orig.height,
                self.cells == orig.cells,
                self.routes.len() == orig.routes.len(),
                forall|id2: int|
                    orig.valid_node(id2) ==> same_shape(
                        #[trigger] self.routes[id2], orig.routes[id2]),
                self.weights_bounded(),
                self.weight(sid as int) == 0,
                self.costs_fixpoint(),
                self.costs_achievable(start),
            decreases pq_view(self.nodes).dom().len(),
        {
            proof {
                assert forall|id2: int| self.valid_node(id2) implies #[trigger] self.weight(id2)
                    == INFINITE_COST || (0 <= self.weight(id2) <= self.weight_cap()) by {
                    assert(1001 * popped <= 1001 * self.node_count()) by (nonlinear_arith)
                        requires popped <= self.node_count(),
                    ;
                }
            }
            let ghost before = *self;
            let popped_item = pq_pop(&mut self.nodes);
            proof {
                assert(before.wf());
                before.lemma_same_but_queue(*self);
            }
            match popped_item {
                None => {
                    proof {
            reveal(MazeGraph::settled_fixpoint_except);
            reveal(MazeGraph::settled_below_queue);
            reveal(MazeGraph::achievable_via_settled);
                        // an empty queue leaves every floor node
                        // settled, so the settled conditions are the
                        // checked relaxation outcome
                        assert(pq_view(self.nodes).dom() =~= pq_view(before.nodes).dom());
                        assert forall|s: int| #[trigger] before.settled(s) implies self.settled(
                            s) by {}
                        self.lemma_achievable_transfer(before, start);
                        assert forall|s: int, k: usize|
                            #![trigger self.settled(s), pq_view(self.nodes).contains_key(k)]
                            self.settled(s) && self.weight(s) < INFINITE_COST && pq_view(
                                self.nodes,
                            ).contains_key(k) implies self.weight(s) <= pq_view(
                            self.nodes,
                        )[k] by {
                            assert(before.settled(s));
                            assert(pq_view(before.nodes).contains_key(k));
                            assert(pq_view(self.nodes)[k] == pq_view(before.nodes)[k]);
                        }
                        assert forall|u: int, t: Turn|
                            self.settled(u) && u != -1 && self.weight(u) < INFINITE_COST && (
                            #[trigger] self.spec_dest(u, t)) is Some implies self.weight(
                            self.spec_dest(u, t)->Some_0.target as int,
                        ) <= self.weight(u) + self.spec_dest(u, t)->Some_0.weight by {
                            assert(before.settled(u));
                            assert(before.spec_dest(u, t) == self.spec_dest(u, t));
                            assert(before.weight(u) == self.weight(u));
                        }
                        assert forall|s: int| #[trigger] self.settled(s) implies self.weight(s)
                            < INFINITE_COST by {
                            assert(before.settled(s));
                        }
                        self.lemma_settled_state_is_checked(before, start, -1);
                    }
                    break ;
                },
                Some((node_pos, prio)) => {
                    proof {
            reveal(MazeGraph::settled_fixpoint_except);
            reveal(MazeGraph::settled_below_queue);
            reveal(MazeGraph::achievable_via_settled);
                        assert(pq_view(before.nodes).contains_key(node_pos));
                        assert(before.valid_node(node_pos as int));
                        assert(before.floor_node(node_pos as int));
                        assert(pq_view(self.nodes).dom() =~= pq_view(before.nodes).dom().remove(
                            node_pos));
                        vstd::set::axiom_set_remove_len(pq_view(before.nodes).dom(), node_pos);
                        assert(self.queue_ok());
                        assert(self.weight(node_pos as int) == prio);
                        // the popped node joins the settled set; the
                        // pop order keeps it at or above every
                        // settled cost and at or below the queue
                        assert forall|s: int| #[trigger] self.settled(s) && s
                            != node_pos as int implies before.settled(s) by {}
                        assert forall|s: int| #[trigger] before.settled(s) implies self.settled(
                            s) by {}
                        assert(self.settled(node_pos as int));
                        assert forall|s: int|
                            #[trigger] self.settled(s) && s != node_pos as int implies self
                            .weight(s) < INFINITE_COST && self.weight(s) <= prio as int by {
                            assert(before.settled(s));
                            assert(before.weight(s) <= pq_view(before.nodes)[node_pos]);
                        }
                        assert forall|s: int, k: usize|
                            #![trigger self.settled(s), pq_view(self.nodes).contains_key(k)]
                            self.settled(s) && self.weight(s) < INFINITE_COST && pq_view(
                                self.nodes,
                            ).contains_key(k) implies self.weight(s) <= pq_view(
                            self.nodes,
                        )[k] by {
                            assert(pq_view(before.nodes).contains_key(k));
                            assert(pq_view(self.nodes)[k] == pq_view(before.nodes)[k]);
                            if s == node_pos as int {
                                assert(prio as int <= pq_view(before.nodes)[k]);
                            } else {
                                assert(before.settled(s));
                            }
                        }
                        self.lemma_achievable_transfer(before, start);
                        assert forall|u: int, t: Turn|
                            self.settled(u) && u != node_pos as int && self.weight(u)
                                < INFINITE_COST && (#[trigger] self.spec_dest(u, t))
                                is Some implies self.weight(
                            self.spec_dest(u, t)->Some_0.target as int,
                        ) <= self.weight(u) + self.spec_dest(u, t)->Some_0.weight by {
                            assert(before.settled(u));
                            assert(before.spec_dest(u, t) == self.spec_dest(u, t));
                            assert(before.weight(u) == self.weight(u));
                        }
                    }
                    if prio == i64::MAX {
                        proof {
            reveal(MazeGraph::settled_fixpoint_except);
            reveal(MazeGraph::settled_below_queue);
            reveal(MazeGraph::achievable_via_settled);
                            // only unreached nodes remain: everything
                            // reached is settled, so the settled
                            // conditions again close the outcome
                            assert forall|k: usize|
                                #[trigger] pq_view(self.nodes).contains_key(k) implies self
                                .weight(k as int) == INFINITE_COST by {
                                assert(pq_view(before.nodes).contains_key(k));
                                assert(prio as int <= pq_view(before.nodes)[k]);
                            }
                            assert forall|u: int, t: Turn|
                                self.settled(u) && u != -1 && self.weight(u) < INFINITE_COST
                                    && (#[trigger] self.spec_dest(u, t)) is Some implies self
                                .weight(self.spec_dest(u, t)->Some_0.target as int)
                                <= self.weight(u) + self.spec_dest(u, t)->Some_0.weight by {
                                assert(u != node_pos as int);
                            }
                            self.lemma_settled_state_is_checked(before, start, node_pos as int);
                        }
                        break ;
                    }
                    proof {
                        popped = popped + 1;
                        assert(1001 * (popped - 1) + 1001 == 1001 * popped) by (nonlinear_arith);
                        assert(1001 * popped <= 1001 * self.node_count()) by (nonlinear_arith)
                            requires popped <= self.node_count(),
                        ;
                        assert forall|s: int| #[trigger] self.settled(s) implies self.weight(s)
                            < INFINITE_COST && self.weight(s) <= prio as int by {}
                    }
                    let ghost b: int = 1001 * popped;
                    let ghost st1 = *self;
                    self.relax_edge(node_pos, Turn::Forward, prio, start, Ghost(b));
                    let ghost st2 = *self;
                    proof {
                        st1.lemma_relax_round_glue(st2, node_pos as int, prio as int);
                    }
                    self.relax_edge(node_pos, Turn::Left, prio, start, Ghost(b));
                    let ghost st3 = *self;
                    proof {
                        st2.lemma_relax_round_glue(st3, node_pos as int, prio as int);
                    }
                    self.relax_edge(node_pos, Turn::Right, prio, start, Ghost(b));
                    proof {
            reveal(MazeGraph::settled_fixpoint_except);
            reveal(MazeGraph::settled_below_queue);
            reveal(MazeGraph::achievable_via_settled);
                        let st4 = *self;
                        st3.lemma_relax_round_glue(st4, node_pos as int, prio as int);
                        // the three offered edges can no longer
                        // improve their targets, so the popped node's
                        // own edges join the settled fixpoint
                        assert forall|u: int, t: Turn|
                            self.settled(u) && self.weight(u) < INFINITE_COST && (
                            #[trigger] self.spec_dest(u, t)) is Some implies self.weight(
                            self.spec_dest(u, t)->Some_0.target as int,
                        ) <= self.weight(u) + self.spec_dest(u, t)->Some_0.weight by {
                            if u == node_pos as int {
                                assert(self.weight(u) == prio);
                                let tg = self.spec_dest(u, t)->Some_0.target as int;
                                self.lemma_targets_ok(u, t);
                                assert(0 <= tg < self.routes.len());
                                match t {
                                    Turn::Forward => {
                                        assert(st2.spec_dest(u, t) == self.spec_dest(u, t));
                                        assert(st2.weight(tg) <= prio + st2.spec_dest(
                                            u,
                                            t,
                                        )->Some_0.weight);
                                        assert(st3.weight(tg) <= st2.weight(tg));
                                        assert(self.weight(tg) <= st3.weight(tg));
                                    },
                                    Turn::Left => {
                                        assert(st3.spec_dest(u, t) == self.spec_dest(u, t));
                                        assert(st3.weight(tg) <= prio + st3.spec_dest(
                                            u,
                                            t,
                                        )->Some_0.weight);
                                        assert(self.weight(tg) <= st3.weight(tg));
                                    },
                                    Turn::Right => {},
                                }
                            }
                        }
                        assert(self.settled_fixpoint_except(-1));
                        assert forall|id2: int|
                            orig.valid_node(id2) implies #[trigger] self.weight(id2)
                            == INFINITE_COST || (0 <= self.weight(id2) <= 1001 * popped) by {
                            assert(self.weight(id2) <= before.weight(id2) || self.weight(id2)
                                <= b);
                        }
                        assert forall|id2: int|
                            orig.valid_node(id2) implies same_shape(
                            #[trigger] self.routes[id2],
                            orig.routes[id2],
                        ) by {
                            assert(same_shape(self.routes[id2], st3.routes[id2]));
                            assert(same_shape(st3.routes[id2], st2.routes[id2]));
                            assert(same_shape(st2.routes[id2], st1.routes[id2]));
                            assert(same_shape(st1.routes[id2], orig.routes[id2]));
                        }
                    }
                },
            }
        }
    }

    /// Between relaxation rounds the settled set is unchanged (the
    /// queue's domain stood still) and settled costs stay finite and
    /// at or below the popped cost.
    proof fn lemma_relax_round_glue(self, next: MazeGraph, node_pos: int, prio: int)
        requires
            pq_view(next.nodes).dom() == pq_view(self.nodes).dom(),
            self.routes.len() == next.routes.len(),
            self.num_cells() == next.num_cells(),
            self.cells == next.cells,
            forall|s: int|
                #[trigger] self.settled(s) ==> next.weight(s) == self.weight(s) && next.weight(s)
                    < INFINITE_COST,
            forall|s: int|
                #[trigger] self.settled(s) ==> self.weight(s) < INFINITE_COST && self.weight(s)
                    <= prio,
        ensures
            forall|s: int| #[trigger] next.settled(s) <==> self.settled(s),
            forall|s: int|
                #[trigger] next.settled(s) ==> next.weight(s) < INFINITE_COST && next.weight(s)
                    <= prio,
    {
        assert forall|s: int| #[trigger] next.settled(s) <==> self.settled(s) by {}
    }

    /// Once every reached node is settled, the settled conditions are
    /// exactly the checked relaxation outcome.
    proof fn lemma_settled_state_is_checked(self, before: MazeGraph, start: XY, ex: int)
        requires
            self.wf(),
            before.settled_fixpoint_except(-1),
            before.achievable_via_settled(start),
            self.cells == before.cells,
            self.routes == before.routes,
            self.width == before.width,
            self.height == before.height,
            forall|s: int| #[trigger] before.settled(s) ==> self.settled(s),
            forall|v: int|
                self.valid_node(v) && self.floor_node(v) && #[trigger] self.weight(v)
                    < INFINITE_COST && v != ex ==> before.settled(v),
            ex >= 0 ==> self.weight(ex) == INFINITE_COST,
        ensures
            self.costs_fixpoint(),
            self.costs_achievable(start),
    {
        reveal(MazeGraph::settled_fixpoint_except);
        reveal(MazeGraph::achievable_via_settled);
        assert(self.start_node(start) == before.start_node(start));
        assert forall|u: int, t: Turn|
            self.valid_node(u) && self.weight(u) < INFINITE_COST && (#[trigger] self.spec_dest(
                u,
                t,
            )) is Some implies self.weight(self.spec_dest(u, t)->Some_0.target as int)
            <= self.weight(u) + self.spec_dest(u, t)->Some_0.weight by {
            assert(self.route_ok(u));
            if !self.floor_node(u) {
                assert(self.spec_dest(u, t) is None);
            }
            assert(u != ex);
            assert(before.settled(u));
            assert(before.weight(u) == self.weight(u));
            assert(before.spec_dest(u, t) == self.spec_dest(u, t));
        }
        assert forall|v: int|
            self.valid_node(v) && #[trigger] self.weight(v) < INFINITE_COST && v
                != self.start_node(start) implies exists|t: Turn|
            (#[trigger] self.spec_src(v, t)) is Some && self.weight(
                self.spec_src(v, t)->Some_0 as int,
            ) < INFINITE_COST && self.weight(self.spec_src(v, t)->Some_0 as int) + turn_cost(t)
                == self.weight(v) by {
            assert(before.weight(v) < INFINITE_COST);
            let t = choose|t: Turn|
                (#[trigger] before.spec_src(v, t)) is Some && before.settled(
                    before.spec_src(v, t)->Some_0 as int,
                ) && before.weight(before.spec_src(v, t)->Some_0 as int) < INFINITE_COST
                    && before.weight(before.spec_src(v, t)->Some_0 as int) + turn_cost(t)
                    == before.weight(v);
            assert(self.spec_src(v, t) == before.spec_src(v, t));
            assert((#[trigger] self.spec_src(v, t)) is Some && self.weight(
                self.spec_src(v, t)->Some_0 as int,
            ) < INFINITE_COST && self.weight(self.spec_src(v, t)->Some_0 as int) + turn_cost(t)
                == self.weight(v));
        }
    }

    /// Reached-through-settled witnesses survive a state change that
    /// keeps costs, edges and queued keys, even as the settled set
    /// grows.
    proof fn lemma_achievable_transfer(self, before: MazeGraph, start: XY)
        requires
            before.achievable_via_settled(start),
            self.routes == before.routes,
            self.cells == before.cells,
            self.width == before.width,
            self.height == before.height,
            forall|s: int| #[trigger] before.settled(s) ==> self.settled(s),
        ensures
            self.achievable_via_settled(start),
    {
        reveal(MazeGraph::achievable_via_settled);
        assert(self.start_node(start) == before.start_node(start));
        assert forall|v: int|
            self.valid_node(v) && #[trigger] self.weight(v) < INFINITE_COST && v
                != self.start_node(start) implies exists|t: Turn|
            (#[trigger] self.spec_src(v, t)) is Some && self.settled(
                self.spec_src(v, t)->Some_0 as int,
            ) && self.weight(self.spec_src(v, t)->Some_0 as int) < INFINITE_COST && self.weight(
                self.spec_src(v, t)->Some_0 as int,
            ) + turn_cost(t) == self.weight(v) by {
            let t = choose|t: Turn|
                (#[trigger] before.spec_src(v, t)) is Some && before.settled(
                    before.spec_src(v, t)->Some_0 as int,
                ) && before.weight(before.spec_src(v, t)->Some_0 as int) < INFINITE_COST
                    && before.weight(before.spec_src(v, t)->Some_0 as int) + turn_cost(t)
                    == before.weight(v);
            assert(self.spec_src(v, t) == before.spec_src(v, t));
            assert((#[trigger] self.spec_src(v, t)) is Some && self.settled(
                self.spec_src(v, t)->Some_0 as int,
            ) && self.weight(self.spec_src(v, t)->Some_0 as int) < INFINITE_COST && self.weight(
                self.spec_src(v, t)->Some_0 as int,
            ) + turn_cost(t) == self.weight(v));
        }
    }

    /// The node the walk begins on: the start cell, facing east.
    pub open spec fn start_node(self, start: XY) -> int {
        (start.y * self.width + start.x) * 4 + spec_dir_index(Direction::East)
    }
}


/// A finite set of indexes below `n` has at most `n` elements.
proof fn lemma_bounded_set_len(s: Set<usize>, n: int)
    requires
        s.finite(),
        0 <= n,
        forall|k: usize| s.contains(k) ==> (k as int) < n,
    ensures
        s.len() <= n,
    decreases n,
{
    if n == 0 {
        assert(s =~= Set::<usize>::empty());
    } else {
        let top = (n - 1) as usize;
        let s2 = s.remove(top);
        vstd::set::axiom_set_remove_len(s, top);
        assert(forall|k: usize| s2.contains(k) ==> (k as int) < n - 1);
        lemma_bounded_set_len(s2, n - 1);
    }
}

impl MazeGraph {
    /// A node's stored edges stay exactly as the maze dictates in any
    /// graph that keeps the same dimensions, cells and node entry.
    pub proof fn lemma_route_ok_frame(self, other: MazeGraph, id: int)
        requires
            self.width == other.width,
            self.height == other.height,
            self.cells == other.cells,
            self.routes.len() == other.routes.len(),
            0 <= id < self.routes.len(),
            self.routes[id] == other.routes[id],
            self.route_ok(id),
        ensures
            other.route_ok(id),
    {
        assert(other.floor_node(id) == self.floor_node(id));
        assert(other.node_dir(id) == self.node_dir(id));
        assert(other.cell_row(n_cell(id)) == self.cell_row(n_cell(id)));
        assert(other.cell_col(n_cell(id)) == self.cell_col(n_cell(id)));
        assert(other.fwd_row(id) == self.fwd_row(id));
        assert(other.fwd_col(id) == self.fwd_col(id));
        assert(other.fwd_cell(id) == self.fwd_cell(id));
        assert(other.fwd_in_bounds(id) == self.fwd_in_bounds(id));
        assert(other.fwd_exists(id) == self.fwd_exists(id));
        assert(other.fwd_target(id) == self.fwd_target(id));
        assert(other.left_target(id) == self.left_target(id));
        assert(other.right_target(id) == self.right_target(id));
        assert(other.back_row(id) == self.back_row(id));
        assert(other.back_col(id) == self.back_col(id));
        assert(other.back_cell(id) == self.back_cell(id));
        assert(other.back_in_bounds(id) == self.back_in_bounds(id));
        assert(other.back_exists(id) == self.back_exists(id));
        assert(other.back_source(id) == self.back_source(id));
    }

    /// Well-formedness and recorded costs carry over to a graph that
    /// differs only in its queue.
    pub proof fn lemma_same_but_queue(self, other: MazeGraph)
        requires
            self.wf(),
            self.width == other.width,
            self.height == other.height,
            self.cells == other.cells,
            self.routes == other.routes,
        ensures
            other.wf(),
            forall|id: int| other.valid_node(id) <==> self.valid_node(id),
            forall|id: int|
                0 <= id < other.routes.len() ==> #[trigger] other.weight(id) == self.weight(id),
            forall|id: int|
                0 <= id < other.routes.len() ==> (#[trigger] other.floor_node(id))
                    == self.floor_node(id),
    {
        assert(other.num_cells() == self.num_cells());
        assert forall|id: int| other.valid_node(id) implies #[trigger] other.route_ok(id) by {
            assert(self.route_ok(id));
            self.lemma_route_ok_frame(other, id);
        }
    }
}


/// Two route nodes with identical edges and back-references; the
/// recorded cost and the path mark may differ.
pub open spec fn same_edges(a: Route, b: Route) -> bool {
    &&& a.dest_forward == b.dest_forward
    &&& a.dest_left == b.dest_left
    &&& a.dest_right == b.dest_right
    &&& a.src_forward == b.src_forward
    &&& a.src_left == b.src_left
    &&& a.src_right == b.src_right
}

/// The cost of moving along an edge of the given kind.
pub open spec fn turn_cost(t: Turn) -> int {
    match t {
        Turn::Forward => MOVE_COST as int,
        Turn::Left => TURN_COST as int,
        Turn::Right => TURN_COST as int,
    }
}

impl MazeGraph {
    /// No recorded cost understates what its incoming edges allow:
    /// every edge out of a reached node bounds its target's cost.
    pub open spec fn costs_fixpoint(self) -> bool {
        forall|u: int, t: Turn|
            self.valid_node(u) && self.weight(u) < INFINITE_COST && (#[trigger] self.spec_dest(
                u, t)) is Some ==> self.weight(self.spec_dest(u, t)->Some_0.target as int)
                <= self.weight(u) + self.spec_dest(u, t)->Some_0.weight
    }

    /// Every reached node other than the start node has a predecessor
    /// that reaches it exactly: some back-reference whose own cost
    /// plus the edge cost equals the node's cost.
    pub open spec fn costs_achievable(self, start: XY) -> bool {
        forall|v: int|
            self.valid_node(v) && #[trigger] self.weight(v) < INFINITE_COST && v
                != self.start_node(start) ==> exists|t: Turn|
                (#[trigger] self.spec_src(v, t)) is Some && self.weight(
                    self.spec_src(v, t)->Some_0 as int) < INFINITE_COST && self.weight(
                    self.spec_src(v, t)->Some_0 as int) + turn_cost(t) == self.weight(v)
    }

    /// The relaxation outcome this library counts on: the start node
    /// at cost zero, all costs bounded, no edge overshoot, and every
    /// reached cost achieved through some predecessor.  `check_costs`
    /// decides this at run time.
    pub open spec fn costs_good(self, start: XY) -> bool {
        &&& self.valid_node(self.start_node(start))
        &&& self.weight(self.start_node(start)) == 0
        &&& self.weights_bounded()
        &&& self.costs_fixpoint()
        &&& self.costs_achievable(start)
    }

    /// A node's stored edges stay as the maze dictates in any graph
    /// with the same dimensions and floor plan whose entry differs at
    /// most in cost and path mark (and not at all on walls).
    pub proof fn lemma_route_ok_marks_frame(self, other: MazeGraph, id: int)
        requires
            1 <= self.width,
            1 <= self.height,
            self.cells.len() == self.num_cells(),
            self.width == other.width,
            self.height == other.height,
            other.cells.len() == self.cells.len(),
            other.routes.len() == self.routes.len(),
            forall|ci: int|
                0 <= ci < self.cells.len() ==> (#[trigger] other.cells[ci]).floor
                    == self.cells[ci].floor,
            0 <= id < self.routes.len(),
            self.routes.len() == self.node_count(),
            same_edges(other.routes[id], self.routes[id]),
            !self.floor_node(id) ==> other.routes[id] == self.routes[id],
            self.route_ok(id),
        ensures
            other.route_ok(id),
    {
        self.lemma_node_fields(id);
        assert(other.floor_node(id) == self.floor_node(id));
        assert(other.node_dir(id) == self.node_dir(id));
        assert(other.fwd_row(id) == self.fwd_row(id));
        assert(other.fwd_col(id) == self.fwd_col(id));
        assert(other.fwd_cell(id) == self.fwd_cell(id));
        assert(other.fwd_in_bounds(id) == self.fwd_in_bounds(id));
        if self.fwd_in_bounds(id) {
            lemma_rc_to_ci(self.width as int, self.height as int, self.fwd_row(id),
                self.fwd_col(id));
            assert(other.cells[self.fwd_cell(id)].floor == self.cells[self.fwd_cell(id)].floor);
        }
        assert(other.fwd_exists(id) == self.fwd_exists(id));
        assert(other.fwd_target(id) == self.fwd_target(id));
        assert(other.left_target(id) == self.left_target(id));
        assert(other.right_target(id) == self.right_target(id));
        assert(other.back_row(id) == self.back_row(id));
        assert(other.back_col(id) == self.back_col(id));
        assert(other.back_cell(id) == self.back_cell(id));
        assert(other.back_in_bounds(id) == self.back_in_bounds(id));
        if self.back_in_bounds(id) {
            lemma_rc_to_ci(self.width as int, self.height as int, self.back_row(id),
                self.back_col(id));
            assert(other.cells[self.back_cell(id)].floor == self.cells[self.back_cell(id)].floor);
        }
        assert(other.back_exists(id) == self.back_exists(id));
        assert(other.back_source(id) == self.back_source(id));
    }

    /// Well-formedness, costs and the checked relaxation outcome carry
    /// over to a graph that differs only in path marks.
    pub proof fn lemma_marks_frame(self, other: MazeGraph, start: XY)
        requires
            self.wf(),
            self.width == other.width,
            self.height == other.height,
            other.cells.len() == self.cells.len(),
            other.routes.len() == self.routes.len(),
            forall|ci: int|
                0 <= ci < self.cells.len() ==> (#[trigger] other.cells[ci]).floor
                    == self.cells[ci].floor,
            forall|ci: int|
                0 <= ci < self.cells.len() && !self.cells[ci].floor ==> !(#[trigger] other.cells[
                ci]).is_on_primary_path && !other.cells[ci].is_on_secondary_path,
            forall|id: int|
                self.valid_node(id) ==> same_edges(#[trigger] other.routes[id], self.routes[id])
                    && other.routes[id].node_weight == self.routes[id].node_weight,
            forall|id: int|
                self.valid_node(id) && !self.floor_node(id) ==> #[trigger] other.routes[id]
                    == self.routes[id],
        ensures
            other.wf(),
            forall|id: int| other.valid_node(id) <==> self.valid_node(id),
            forall|id: int|
                0 <= id < other.routes.len() ==> #[trigger] other.weight(id) == self.weight(id),
            forall|id: int|
                0 <= id < other.routes.len() ==> (#[trigger] other.floor_node(id))
                    == self.floor_node(id),
            forall|id: int, t: Turn|
                0 <= id < other.routes.len() ==> #[trigger] other.spec_dest(id, t)
                    == self.spec_dest(id, t),
            forall|id: int, t: Turn|
                0 <= id < other.routes.len() ==> #[trigger] other.spec_src(id, t)
                    == self.spec_src(id, t),
            self.costs_good(start) ==> other.costs_good(start),
            self.weights_bounded() ==> other.weights_bounded(),
    {
        assert(other.num_cells() == self.num_cells());
        assert forall|id: int| other.valid_node(id) implies #[trigger] other.route_ok(id) by {
            assert(self.route_ok(id));
            self.lemma_route_ok_marks_frame(other, id);
        }
        assert(other.wf());
        assert(other.start_node(start) == self.start_node(start));
        assert forall|id: int| 0 <= id < other.routes.len() implies #[trigger] other.weight(id)
            == self.weight(id) by {
            assert(same_edges(other.routes[id], self.routes[id]) && other.routes[id].node_weight
                == self.routes[id].node_weight);
        }
        assert forall|id: int, t: Turn| 0 <= id < other.routes.len() implies #[trigger]
            other.spec_dest(id, t) == self.spec_dest(id, t) by {
            assert(same_edges(other.routes[id], self.routes[id]));
        }
        assert forall|id: int, t: Turn| 0 <= id < other.routes.len() implies #[trigger]
            other.spec_src(id, t) == self.spec_src(id, t) by {
            assert(same_edges(other.routes[id], self.routes[id]));
        }
        if self.weights_bounded() {
            assert forall|id: int|
                other.valid_node(id) implies #[trigger] other.weight(id) == INFINITE_COST || (0
                    <= other.weight(id) <= other.weight_cap()) by {
                assert(other.weight(id) == self.weight(id));
                assert(self.weight(id) == INFINITE_COST || (0 <= self.weight(id)
                    <= self.weight_cap()));
            }
        }
        if self.costs_good(start) {
            assert forall|u: int, t: Turn|
                other.valid_node(u) && other.weight(u) < INFINITE_COST && (
                #[trigger] other.spec_dest(u, t)) is Some implies other.weight(
                other.spec_dest(u, t)->Some_0.target as int) <= other.weight(u) + other.spec_dest(
                u, t)->Some_0.weight by {
                assert(self.spec_dest(u, t) == other.spec_dest(u, t));
                let wc = self.spec_dest(u, t)->Some_0;
                assert(self.route_ok(u));
                if !self.floor_node(u) {
                    assert(self.spec_dest(u, t) is None);
                }
                self.lemma_targets_ok(u, t);
                assert(self.weight(wc.target as int) <= self.weight(u) + wc.weight);
                assert(other.weight(wc.target as int) == self.weight(wc.target as int));
            }
            assert forall|v: int|
                other.valid_node(v) && #[trigger] other.weight(v) < INFINITE_COST && v
                    != other.start_node(start) implies exists|t: Turn|
                (#[trigger] other.spec_src(v, t)) is Some && other.weight(
                    other.spec_src(v, t)->Some_0 as int) < INFINITE_COST && other.weight(
                    other.spec_src(v, t)->Some_0 as int) + turn_cost(t) == other.weight(v) by {
                assert(self.weight(v) < INFINITE_COST && self.valid_node(v));
                let t = choose|t: Turn|
                    (#[trigger] self.spec_src(v, t)) is Some && self.weight(
                        self.spec_src(v, t)->Some_0 as int) < INFINITE_COST && self.weight(
                        self.spec_src(v, t)->Some_0 as int) + turn_cost(t) == self.weight(v);
                let src = self.spec_src(v, t)->Some_0;
                assert(self.route_ok(v));
                if !self.floor_node(v) {
                    assert(self.spec_src(v, t) is None);
                }
                self.lemma_targets_ok(v, t);
                assert(other.spec_src(v, t) == self.spec_src(v, t));
                assert(other.weight(src as int) == self.weight(src as int));
                assert((#[trigger] other.spec_src(v, t)) is Some && other.weight(
                    other.spec_src(v, t)->Some_0 as int) < INFINITE_COST && other.weight(
                    other.spec_src(v, t)->Some_0 as int) + turn_cost(t) == other.weight(v));
            }
            assert(other.costs_good(start));
        }
    }
}


impl MazeGraph {
    /// A cell that lies on the primary path or on some other
    /// cost-optimal path.
    pub open spec fn is_seat(self, ci: int) -> bool {
        self.cells[ci].is_on_primary_path || self.cells[ci].is_on_secondary_path
    }

    /// How many of the first `n` cells are seats.
    pub open spec fn seats_upto(self, n: int) -> int
        decreases n,
    {
        if n <= 0 {
            0
        } else {
            self.seats_upto(n - 1) + if self.is_seat(n - 1) {
                1int
            } else {
                0int
            }
        }
    }

    /// How many cells lie on some cost-optimal path.
    pub open spec fn seat_total(self) -> int {
        self.seats_upto(self.num_cells())
    }

    /// Counts the cells marked as lying on the primary path or on any
    /// other cost-optimal path.
    pub fn count_seats(&self) -> (r: i64)
        requires
            self.wf(),
        ensures
            r == self.seat_total(),
            0 <= r <= self.num_cells(),
    {
        let total = self.width * self.height;
        let mut count: i64 = 0;
        let mut ci: usize = 0;
        while ci < total
            invariant
                self.wf(),
                total == self.num_cells(),
                ci <= total,
                count == self.seats_upto(ci as int),
                0 <= count <= ci,
            decreases total - ci,
        {
            let cell = self.cells[ci];
            if cell.is_on_primary_path || cell.is_on_secondary_path {
                count = count + 1;
            }
            ci = ci + 1;
        }
        count
    }

    /// The least recorded cost among the four route nodes of a cell.
    pub open spec fn cell_best_weight(self, ci: int) -> int {
        vstd::math::min(
            vstd::math::min(self.weight(ci * 4), self.weight(ci * 4 + 1)),
            vstd::math::min(self.weight(ci * 4 + 2), self.weight(ci * 4 + 3)),
        )
    }

    /// The cheapest arrival at a cell: the route node with the least
    /// recorded cost, or nothing when all four are unreached.
    pub(crate) fn best_route_at(&self, ci: usize) -> (r: (Option<usize>, i64))
        requires
            self.wf(),
            (ci as int) < self.num_cells(),
        ensures
            r.1 == self.cell_best_weight(ci as int),
            r.0 is Some <==> r.1 < INFINITE_COST,
            r.0 matches Some(b) ==> self.valid_node(b as int) && n_cell(b as int) == ci
                && self.weight(b as int) == r.1,
            r.0 matches Some(b) ==> self.chosen_arrival(ci as int) == Some(b as int),
            r.0 is None ==> self.chosen_arrival(ci as int) is None,
    {
        proof {
            reveal(MazeGraph::chosen_arrival);
            lemma_ci_di_to_id(self.num_cells(), ci as int, 0);
            lemma_ci_di_to_id(self.num_cells(), ci as int, 1);
            lemma_ci_di_to_id(self.num_cells(), ci as int, 2);
            lemma_ci_di_to_id(self.num_cells(), ci as int, 3);
        }
        let mut best_route: Option<usize> = None;
        let mut best_weight: i64 = INFINITE_COST;
        let w0 = self.routes[ci * 4].node_weight;
        if w0 < best_weight {
            best_route = Some(ci * 4);
            best_weight = w0;
        }
        let w1 = self.routes[ci * 4 + 1].node_weight;
        if w1 < best_weight {
            best_route = Some(ci * 4 + 1);
            best_weight = w1;
        }
        let w2 = self.routes[ci * 4 + 2].node_weight;
        if w2 < best_weight {
            best_route = Some(ci * 4 + 2);
            best_weight = w2;
        }
        let w3 = self.routes[ci * 4 + 3].node_weight;
        if w3 < best_weight {
            best_route = Some(ci * 4 + 3);
            best_weight = w3;
        }
        (best_route, best_weight)
    }

    /// Marks the route node as on a path, and its owning cell as on
    /// the primary or some other optimal path as asked.  Marks only
    /// ever accumulate; costs and edges stay as they are.
    fn set_marks(&mut self, id: usize, primary: bool, secondary: bool)
        requires
            old(self).wf(),
            old(self).valid_node(id as int),
            old(self).floor_node(id as int),
        ensures
            final(self).wf(),
            final(self).nodes == old(self).nodes,
            final(self).width == old(self).width,
            final(self).height == old(self).height,
            final(self).cells.len() == old(self).cells.len(),
            final(self).routes.len() == old(self).routes.len(),
            forall|ci: int|
                0 <= ci < old(self).cells.len() ==> (#[trigger] final(self).cells[ci]).floor
                    == old(self).cells[ci].floor,
            forall|id2: int|
                0 <= id2 < old(self).routes.len() ==> #[trigger] final(self).weight(id2) == old(
                self).weight(id2),
            forall|id2: int|
                0 <= id2 < old(self).routes.len() ==> same_edges(
                    #[trigger] final(self).routes[id2], old(self).routes[id2]),
            forall|id2: int, t: Turn|
                0 <= id2 < old(self).routes.len() ==> #[trigger] final(self).spec_dest(id2, t)
                    == old(self).spec_dest(id2, t),
            forall|id2: int, t: Turn|
                0 <= id2 < old(self).routes.len() ==> #[trigger] final(self).spec_src(id2, t)
                    == old(self).spec_src(id2, t),
            forall|id2: int|
                0 <= id2 < old(self).routes.len() && id2 != id ==> (#[trigger] final(
                self).routes[id2]).is_on_path == old(self).routes[id2].is_on_path,
            final(self).routes[id as int].is_on_path,
            forall|ci: int|
                0 <= ci < old(self).cells.len() && ci != n_cell(id as int) ==> #[trigger] final(
                self).cells[ci] == old(self).cells[ci],
            final(self).cells[n_cell(id as int)].is_on_primary_path == (old(self).cells[n_cell(
                id as int)].is_on_primary_path || primary),
            final(self).cells[n_cell(id as int)].is_on_secondary_path == (old(self).cells[n_cell(
                id as int)].is_on_secondary_path || secondary),
            forall|st: XY| old(self).costs_good(st) ==> final(self).costs_good(st),
            old(self).weights_bounded() ==> final(self).weights_bounded(),
    {
        proof {
            self.lemma_node_fields(id as int);
        }
        let ci = id / 4;
        let mut cell = self.cells[ci];
        cell.is_on_primary_path = cell.is_on_primary_path || primary;
        cell.is_on_secondary_path = cell.is_on_secondary_path || secondary;
        self.cells.set(ci, cell);
        let mut rt = self.routes[id];
        rt.is_on_path = true;
        self.routes.set(id, rt);
        proof {
            let prev = *old(self);
            assert forall|ci2: int|
                0 <= ci2 < prev.cells.len() implies (#[trigger] self.cells[ci2]).floor
                    == prev.cells[ci2].floor by {}
            assert forall|id2: int|
                prev.valid_node(id2) implies same_edges(#[trigger] self.routes[id2], prev.routes[
                id2]) && self.routes[id2].node_weight == prev.routes[id2].node_weight by {
                if id2 != id {
                    assert(self.routes[id2] == prev.routes[id2]);
                }
            }
            prev.lemma_marks_frame(*self, XY { x: 0, y: 0 });
            assert forall|st: XY| prev.costs_good(st) implies self.costs_good(st) by {
                prev.lemma_marks_frame(*self, st);
            }
        }
    }
}


impl MazeGraph {
    /// Finds the cheapest arrival at the end cell, then walks backward
    /// through least-cost back-references, marking every visited cell
    /// as on the primary path, until the start cell is reached.
    /// Returns the cheapest cost of reaching the end cell; when the
    /// end is unreachable nothing is marked and the sentinel comes
    /// back.  Demands a checked relaxation outcome: under it the walk
    /// always reaches the start because costs strictly decrease along
    /// chosen back-references.
    #[verifier::rlimit(100)]
    #[verifier::spinoff_prover]
    pub fn mark_primary_shortest_path(&mut self, start: XY, end: XY) -> (r: i64)
        requires
            old(self).wf(),
            0 <= start.x < old(self).width,
            0 <= start.y < old(self).height,
            0 <= end.x < old(self).width,
            0 <= end.y < old(self).height,
            old(self).cells[end.y * old(self).width + end.x].floor,
            old(self).costs_good(start),
        ensures
            final(self).wf(),
            final(self).costs_good(start),
            final(self).nodes == old(self).nodes,
            final(self).width == old(self).width,
            final(self).height == old(self).height,
            final(self).cells.len() == old(self).cells.len(),
            final(self).routes.len() == old(self).routes.len(),
            forall|ci: int|
                0 <= ci < old(self).cells.len() ==> (#[trigger] final(self).cells[ci]).floor
                    == old(self).cells[ci].floor,
            forall|id: int|
                0 <= id < old(self).routes.len() ==> #[trigger] final(self).weight(id) == old(
                self).weight(id),
            forall|id: int|
                0 <= id < old(self).routes.len() ==> same_edges(
                    #[trigger] final(self).routes[id], old(self).routes[id]),
            forall|ci: int|
                0 <= ci < old(self).cells.len() && (#[trigger] old(self).cells[
                ci]).is_on_primary_path ==> final(self).cells[ci].is_on_primary_path,
            forall|ci: int|
                0 <= ci < old(self).cells.len() ==> (#[trigger] final(self).cells[
                ci]).is_on_secondary_path == old(self).cells[ci].is_on_secondary_path,
            forall|id: int|
                0 <= id < old(self).routes.len() && (#[trigger] old(self).routes[
                id]).is_on_path ==> final(self).routes[id].is_on_path,
            r == old(self).cell_best_weight(end.y * old(self).width + end.x),
            r < INFINITE_COST ==> final(self).cells[end.y * old(self).width
                + end.x].is_on_primary_path && final(self).cells[start.y * old(self).width
                + start.x].is_on_primary_path,
            forall|ci: int|
                0 <= ci < old(self).cells.len() && (#[trigger] final(self).cells[
                ci]).is_on_primary_path && !old(self).cells[ci].is_on_primary_path
                    ==> exists|v: int|
                    n_cell(v) == ci && final(self).valid_node(v) && final(self).weight(v)
                        < INFINITE_COST && final(self).weight(v) <= r,
            r == INFINITE_COST ==> forall|ci: int|
                0 <= ci < old(self).cells.len() ==> (#[trigger] final(self).cells[
                ci]).is_on_primary_path == old(self).cells[ci].is_on_primary_path,
            r < INFINITE_COST ==> exists|walk: Seq<int>|
                {
                    &&& #[trigger] final(self).primary_walk(
                        walk,
                        final(self).chosen_arrival(end.y * old(self).width + end.x)->Some_0,
                        start.y * old(self).width + start.x,
                    )
                    &&& forall|ci: int|
                        0 <= ci < old(self).cells.len() ==> ((#[trigger] final(self).cells[
                        ci]).is_on_primary_path <==> old(self).cells[ci].is_on_primary_path
                            || exists|i: int| 0 <= i < walk.len() && n_cell(#[trigger] walk[i])
                            == ci)
                },
    {
        proof {
            lemma_rc_to_ci(self.width as int, self.height as int, end.y as int, end.x as int);
            lemma_rc_to_ci(self.width as int, self.height as int, start.y as int, start.x as int);
        }
        let eci = (end.y as usize) * self.width + (end.x as usize);
        let ghost sci = (start.y as int) * (self.width as int) + (start.x as int);
        let (best_route, best_weight) = self.best_route_at(eci);
        let ghost orig = *self;
        let ghost mut walk: Seq<int> = Seq::empty();

        let mut current_route = best_route;
        while current_route.is_some()
            invariant_except_break
                best_route is None ==> walk.len() == 0,
                walk.len() == 0 ==> current_route == best_route && (forall|ci: int|
                    0 <= ci < orig.cells.len() ==> (#[trigger] self.cells[
                    ci]).is_on_primary_path == orig.cells[ci].is_on_primary_path),
                walk.len() >= 1 ==> {
                    &&& best_route matches Some(b0) && walk[0] == b0 as int
                    &&& forall|i: int|
                        0 <= i < walk.len() - 1 ==> n_cell(#[trigger] walk[i]) != sci
                            && self.chosen_source(walk[i]) == Some(walk[i + 1])
                    &&& n_cell(walk.last()) != sci
                    &&& (match current_route {
                        Option::Some(c) => self.chosen_source(walk.last()) == Some(c as int),
                        Option::None => self.chosen_source(walk.last()) is None,
                    })
                    &&& forall|i: int|
                        0 <= i < walk.len() ==> self.valid_node(#[trigger] walk[i])
                            && self.floor_node(walk[i])
                    &&& forall|ci: int|
                        0 <= ci < orig.cells.len() ==> ((#[trigger] self.cells[
                        ci]).is_on_primary_path <==> orig.cells[ci].is_on_primary_path
                            || exists|i: int| 0 <= i < walk.len() && n_cell(#[trigger] walk[i])
                            == ci)
                },
                self.wf(),
                self.costs_good(start),
                self.nodes == orig.nodes,
                self.width == orig.width,
                self.height == orig.height,
                self.cells.len() == orig.cells.len(),
                self.routes.len() == orig.routes.len(),
                0 <= start.x < self.width,
                0 <= start.y < self.height,
                sci == start.y * self.width + start.x,
                0 <= sci < self.num_cells(),
                (eci as int) < self.num_cells(),
                forall|ci: int|
                    0 <= ci < orig.cells.len() ==> (#[trigger] self.cells[ci]).floor
                        == orig.cells[ci].floor,
                forall|id: int|
                    0 <= id < orig.routes.len() ==> #[trigger] self.weight(id) == orig.weight(id),
                forall|id: int|
                    0 <= id < orig.routes.len() ==> same_edges(
                        #[trigger] self.routes[id], orig.routes[id]),
                forall|ci: int|
                    0 <= ci < orig.cells.len() && (#[trigger] orig.cells[
                    ci]).is_on_primary_path ==> self.cells[ci].is_on_primary_path,
                forall|ci: int|
                    0 <= ci < orig.cells.len() ==> (#[trigger] self.cells[
                    ci]).is_on_secondary_path == orig.cells[ci].is_on_secondary_path,
                forall|id: int|
                    0 <= id < orig.routes.len() && (#[trigger] orig.routes[id]).is_on_path
                        ==> self.routes[id].is_on_path,
                current_route matches Some(c) ==> self.valid_node(c as int) && self.floor_node(
                    c as int) && self.weight(c as int) < INFINITE_COST && self.weight(c as int)
                    <= best_weight as int,
                forall|ci: int|
                    0 <= ci < orig.cells.len() && (#[trigger] self.cells[
                    ci]).is_on_primary_path && !orig.cells[ci].is_on_primary_path
                        ==> exists|v: int|
                        n_cell(v) == ci && self.valid_node(v) && self.weight(v) < INFINITE_COST
                            && self.weight(v) <= best_weight as int,
                best_weight < INFINITE_COST ==> best_route is Some && current_route is Some,
                self.cells[eci as int].floor,
                best_route is Some ==> (self.cells[eci as int].is_on_primary_path
                    || current_route == best_route),
                best_route matches Some(b) ==> n_cell(b as int) == eci,
            ensures
                self.wf(),
                self.costs_good(start),
                self.nodes == orig.nodes,
                self.width == orig.width,
                self.height == orig.height,
                self.cells.len() == orig.cells.len(),
                self.routes.len() == orig.routes.len(),
                forall|ci: int|
                    0 <= ci < orig.cells.len() ==> (#[trigger] self.cells[ci]).floor
                        == orig.cells[ci].floor,
                forall|id: int|
                    0 <= id < orig.routes.len() ==> #[trigger] self.weight(id) == orig.weight(id),
                forall|id: int|
                    0 <= id < orig.routes.len() ==> same_edges(
                        #[trigger] self.routes[id], orig.routes[id]),
                forall|ci: int|
                    0 <= ci < orig.cells.len() && (#[trigger] orig.cells[
                    ci]).is_on_primary_path ==> self.cells[ci].is_on_primary_path,
                forall|ci: int|
                    0 <= ci < orig.cells.len() ==> (#[trigger] self.cells[
                    ci]).is_on_secondary_path == orig.cells[ci].is_on_secondary_path,
                forall|id: int|
                    0 <= id < orig.routes.len() && (#[trigger] orig.routes[id]).is_on_path
                        ==> self.routes[id].is_on_path,
                best_weight < INFINITE_COST ==> self.cells[eci as int].is_on_primary_path
                    && self.cells[sci].is_on_primary_path,
                best_route is None ==> forall|ci: int|
                    0 <= ci < orig.cells.len() ==> (#[trigger] self.cells[
                    ci]).is_on_primary_path == orig.cells[ci].is_on_primary_path,
                best_route matches Some(b0) ==> {
                    &&& walk.len() >= 1
                    &&& walk[0] == b0 as int
                    &&& forall|i: int|
                        0 <= i < walk.len() ==> self.valid_node(#[trigger] walk[i])
                            && self.floor_node(walk[i])
                    &&& forall|i: int|
                        0 <= i < walk.len() - 1 ==> n_cell(#[trigger] walk[i]) != sci
                            && self.chosen_source(walk[i]) == Some(walk[i + 1])
                    &&& (n_cell(walk.last()) == sci || self.chosen_source(walk.last()) is None)
                    &&& forall|ci: int|
                        0 <= ci < orig.cells.len() ==> ((#[trigger] self.cells[
                        ci]).is_on_primary_path <==> orig.cells[ci].is_on_primary_path
                            || exists|i: int| 0 <= i < walk.len() && n_cell(#[trigger] walk[i])
                            == ci)
                },
                forall|ci: int|
                    0 <= ci < orig.cells.len() && (#[trigger] self.cells[
                    ci]).is_on_primary_path && !orig.cells[ci].is_on_primary_path
                        ==> exists|v: int|
                        n_cell(v) == ci && self.valid_node(v) && self.weight(v) < INFINITE_COST
                            && self.weight(v) <= best_weight as int,
            decreases (match current_route {
                Option::Some(c) => self.weight(c as int) + 1,
                Option::None => 0,
            }),
        {
            let route = match current_route {
                Some(route) => route,
                None => {
                    proof {
                        assert(false);
                    }
                    0
                },
            };
            let ghost pre_mark = *self;
            self.set_marks(route, true, false);
            proof {
                self.lemma_node_fields(route as int);
                assert forall|ci: int|
                    0 <= ci < orig.cells.len() && (#[trigger] self.cells[
                    ci]).is_on_primary_path && !orig.cells[ci].is_on_primary_path
                        implies exists|v: int|
                    n_cell(v) == ci && self.valid_node(v) && self.weight(v) < INFINITE_COST
                        && self.weight(v) <= best_weight as int by {
                    if ci == n_cell(route as int) {
                        assert(n_cell(route as int) == ci && self.valid_node(route as int)
                            && self.weight(route as int) < INFINITE_COST && self.weight(
                            route as int) <= best_weight as int);
                    } else {
                        assert(pre_mark.cells[ci].is_on_primary_path);
                        let v = choose|v: int|
                            n_cell(v) == ci && pre_mark.valid_node(v) && pre_mark.weight(v)
                                < INFINITE_COST && pre_mark.weight(v) <= best_weight as int;
                        assert(self.weight(v) == pre_mark.weight(v));
                        assert(n_cell(v) == ci && self.valid_node(v) && self.weight(v)
                            < INFINITE_COST && self.weight(v) <= best_weight as int);
                    }
                }
                // the marked node joins the recorded walk; earlier
                // links keep their chosen sources, which read only
                // costs and edges
                assert forall|v: int|
                    0 <= v < pre_mark.routes.len() implies #[trigger] self.chosen_source(v)
                    == pre_mark.chosen_source(v) by {
                    assert(pre_mark.route_ok(v));
                    if pre_mark.floor_node(v) {
                        pre_mark.lemma_targets_ok(v, Turn::Forward);
                        pre_mark.lemma_targets_ok(v, Turn::Left);
                        pre_mark.lemma_targets_ok(v, Turn::Right);
                    }
                    MazeGraph::lemma_chosen_source_frame(pre_mark, *self, v);
                }
                let ghost prev_walk = walk;
                walk = walk.push(route as int);
                assert(walk.last() == route as int && walk.len() == prev_walk.len() + 1);
                if prev_walk.len() >= 1 {
                    assert(pre_mark.chosen_source(prev_walk.last()) == Some(route as int));
                    assert forall|i: int|
                        0 <= i < walk.len() - 1 implies n_cell(#[trigger] walk[i]) != sci
                            && self.chosen_source(walk[i]) == Some(walk[i + 1]) by {
                        if i < prev_walk.len() - 1 {
                            assert(walk[i] == prev_walk[i] && walk[i + 1] == prev_walk[i + 1]);
                        } else {
                            assert(walk[i] == prev_walk.last() && walk[i + 1] == route as int);
                        }
                    }
                }
                assert forall|ci: int|
                    0 <= ci < orig.cells.len() implies ((#[trigger] self.cells[
                    ci]).is_on_primary_path <==> orig.cells[ci].is_on_primary_path || exists|
                    i: int|
                    0 <= i < walk.len() && n_cell(#[trigger] walk[i]) == ci) by {
                    if ci == n_cell(route as int) {
                        assert(n_cell(walk[walk.len() - 1]) == ci);
                    } else {
                        assert(self.cells[ci] == pre_mark.cells[ci]);
                        if prev_walk.len() == 0 {
                            assert(pre_mark.cells[ci].is_on_primary_path == orig.cells[
                            ci].is_on_primary_path);
                            assert(forall|i: int|
                                0 <= i < walk.len() ==> n_cell(#[trigger] walk[i]) != ci);
                        } else {
                            if pre_mark.cells[ci].is_on_primary_path && !orig.cells[
                                ci].is_on_primary_path {
                                let i = choose|i: int|
                                    0 <= i < prev_walk.len() && n_cell(#[trigger] prev_walk[i])
                                        == ci;
                                assert(walk[i] == prev_walk[i]);
                                assert(0 <= i < walk.len() && n_cell(walk[i]) == ci);
                            }
                            if exists|i: int| 0 <= i < walk.len() && n_cell(#[trigger] walk[i])
                                == ci {
                                let i = choose|i: int|
                                    0 <= i < walk.len() && n_cell(#[trigger] walk[i]) == ci;
                                assert(i < prev_walk.len() && prev_walk[i] == walk[i]);
                                assert(0 <= i < prev_walk.len() && n_cell(prev_walk[i]) == ci);
                                assert(pre_mark.cells[ci].is_on_primary_path);
                            }
                        }
                    }
                }
            }
            let rci = route / 4;
            let rrow = rci / self.width;
            let rcol = rci % self.width;
            if rrow == start.y as usize && rcol == start.x as usize {
                proof {
                    assert(rci as int == sci);
                    assert(self.cells[sci].is_on_primary_path);
                    if best_weight < INFINITE_COST {
                        if current_route == best_route {
                            assert(rci as int == eci);
                        }
                        assert(self.cells[eci as int].is_on_primary_path);
                    }
                    assert(n_cell(walk.last()) == sci);
                }
                break ;
            }
            proof {
                assert(rci as int != sci) by {
                    if rci as int == sci {
                        lemma_rc_to_ci(self.width as int, self.height as int, start.y as int,
                            start.x as int);
                    }
                }
                assert((route as int) != self.start_node(start)) by {
                    if route as int == self.start_node(start) {
                        lemma_ci_di_to_id(self.num_cells(), sci, spec_dir_index(Direction::East));
                    }
                }
            }

            let rt = self.routes[route];
            let mut best_source: Option<usize> = None;
            let mut best_source_score: i64 = INFINITE_COST;
            proof {
                self.lemma_targets_ok(route as int, Turn::Forward);
                self.lemma_targets_ok(route as int, Turn::Left);
                self.lemma_targets_ok(route as int, Turn::Right);
                assert(self.route_ok(route as int));
            }
            if let Some(s) = rt.src_forward {
                let w = self.routes[s].node_weight;
                if w < best_source_score {
                    best_source_score = w;
                    best_source = Some(s);
                }
            }
            if let Some(s) = rt.src_left {
                let w = self.routes[s].node_weight;
                if w < best_source_score {
                    best_source_score = w;
                    best_source = Some(s);
                }
            }
            if let Some(s) = rt.src_right {
                let w = self.routes[s].node_weight;
                if w < best_source_score {
                    best_source_score = w;
                    best_source = Some(s);
                }
            }
            proof {
                // the checked relaxation outcome names a predecessor
                // that reaches this node exactly, so the least source
                // lies strictly below the current cost
                let t = choose|t: Turn|
                    (#[trigger] self.spec_src(route as int, t)) is Some && self.weight(
                        self.spec_src(route as int, t)->Some_0 as int) < INFINITE_COST
                        && self.weight(self.spec_src(route as int, t)->Some_0 as int)
                        + turn_cost(t) == self.weight(route as int);
                let sw = self.weight(self.spec_src(route as int, t)->Some_0 as int);
                assert(sw <= self.weight(route as int) - 1);
                assert(best_source_score as int <= sw);
                assert(best_source matches Some(b) && self.valid_node(b as int)
                    && self.floor_node(b as int) && self.weight(b as int) == best_source_score);
                // the scan takes the first least-cost back-reference:
                // exactly the walk's chosen source
                reveal(MazeGraph::src_weight);
                reveal(MazeGraph::min_src_weight);
                reveal(MazeGraph::chosen_source);
                assert(self.src_weight(route as int, Turn::Forward) == (
                if self.spec_src(route as int, Turn::Forward) is Some {
                    self.weight(self.spec_src(route as int, Turn::Forward)->Some_0 as int)
                } else {
                    INFINITE_COST as int
                }));
                assert(best_source_score as int == self.min_src_weight(route as int));
                assert(match best_source {
                    Option::Some(b) => self.chosen_source(route as int) == Some(b as int),
                    Option::None => self.chosen_source(route as int) is None,
                });
            }
            current_route = best_source;
        }
        proof {
            reveal(MazeGraph::primary_walk);
            reveal(MazeGraph::chosen_arrival);
            if best_weight < INFINITE_COST {
                assert(best_route is Some);
                assert(self.chosen_arrival(eci as int) == orig.chosen_arrival(eci as int)) by {
                    reveal(MazeGraph::chosen_arrival);
                    assert(self.cell_best_weight(eci as int) == orig.cell_best_weight(
                        eci as int));
                }
                assert(self.primary_walk(walk, self.chosen_arrival(eci as int)->Some_0, sci));
            }
        }
        best_weight
    }
}


impl MazeGraph {
    /// One weight-consistent edge: a move of kind `t` from `a` lands
    /// on `b`, and `a`'s cost plus the edge cost is exactly `b`'s.
    pub open spec fn consistent_step(self, a: int, b: int, t: Turn) -> bool {
        &&& self.valid_node(a)
        &&& self.spec_dest(a, t) is Some
        &&& self.spec_dest(a, t)->Some_0.target == b
        &&& self.weight(a) < INFINITE_COST
        &&& self.weight(a) + self.spec_dest(a, t)->Some_0.weight == self.weight(b)
    }

    /// Some kind of move steps consistently from link `i` of the
    /// chain to link `i + 1`.
    pub open spec fn chain_link(self, ch: Seq<int>, i: int) -> bool {
        exists|t: Turn| #[trigger] self.consistent_step(ch[i], ch[i + 1], t)
    }

    /// A nonempty run of nodes, each reaching the next by a
    /// weight-consistent edge.
    pub open spec fn consistent_chain(self, ch: Seq<int>) -> bool {
        &&& ch.len() >= 1
        &&& forall|i: int| 0 <= i < ch.len() ==> self.valid_node(#[trigger] ch[i])
        &&& forall|i: int| 0 <= i < ch.len() - 1 ==> #[trigger] self.chain_link(ch, i)
    }

    /// Node `v` lies on some cost-optimal route into `endnode`: a
    /// weight-consistent chain leads from `v` to `endnode`.
    pub open spec fn on_best_chain(self, v: int, endnode: int) -> bool {
        exists|ch: Seq<int>|
            self.consistent_chain(ch) && ch.first() == v && ch.last() == endnode
    }

    /// Prepending a consistent edge to a consistent chain gives a
    /// consistent chain.
    pub proof fn lemma_chain_extend(self, s: int, ch: Seq<int>, t: Turn)
        requires
            self.consistent_chain(ch),
            self.consistent_step(s, ch.first(), t),
            self.valid_node(s),
        ensures
            self.consistent_chain(seq![s] + ch),
            (seq![s] + ch).first() == s,
            (seq![s] + ch).last() == ch.last(),
    {
        let ch2 = seq![s] + ch;
        assert(ch2[0] == s);
        assert forall|i: int| 0 <= i < ch2.len() - 1 implies #[trigger] self.chain_link(
            ch2, i) by {
            if i == 0 {
                assert(ch2[1] == ch[0]);
                assert(self.consistent_step(ch2[0], ch2[1], t));
            } else {
                assert(ch2[i] == ch[i - 1] && ch2[i + 1] == ch[i]);
                assert(self.chain_link(ch, i - 1));
                let tt = choose|tt: Turn| #[trigger] self.consistent_step(ch[i - 1], ch[i - 1 + 1], tt);
                assert(self.consistent_step(ch2[i], ch2[i + 1], tt));
            }
        }
        assert forall|i: int| 0 <= i < ch2.len() implies self.valid_node(#[trigger] ch2[i]) by {
            if i > 0 {
                assert(ch2[i] == ch[i - 1]);
            }
        }
    }

    /// Chains carry over between graphs with equal costs and edges.
    pub proof fn lemma_chain_frame(self, other: MazeGraph, v: int, endnode: int)
        requires
            self.on_best_chain(v, endnode),
            self.routes.len() == other.routes.len(),
            self.num_cells() == other.num_cells(),
            self.routes.len() == self.node_count(),
            forall|id: int|
                0 <= id < self.routes.len() ==> #[trigger] other.weight(id) == self.weight(id),
            forall|id: int, t: Turn|
                0 <= id < self.routes.len() ==> #[trigger] other.spec_dest(id, t)
                    == self.spec_dest(id, t),
        ensures
            other.on_best_chain(v, endnode),
    {
        let ch = choose|ch: Seq<int>|
            self.consistent_chain(ch) && ch.first() == v && ch.last() == endnode;
        assert forall|i: int| 0 <= i < ch.len() - 1 implies #[trigger] other.chain_link(
            ch, i) by {
            assert(self.chain_link(ch, i));
            let t = choose|t: Turn| #[trigger] self.consistent_step(ch[i], ch[i + 1], t);
            assert(self.valid_node(ch[i]) && self.valid_node(ch[i + 1]));
            assert(other.spec_dest(ch[i], t) == self.spec_dest(ch[i], t));
            assert(other.weight(ch[i]) == self.weight(ch[i]));
            assert(other.weight(ch[i + 1]) == self.weight(ch[i + 1]));
            assert(other.consistent_step(ch[i], ch[i + 1], t));
        }
        assert(other.consistent_chain(ch));
    }

    /// Marks the single best path as primary, then walks the whole
    /// best-path forest backward from the cheapest arrival at the end
    /// cell, marking every cell that lies on some cost-optimal path.
    /// A predecessor is accepted exactly when its cost plus the edge
    /// cost meets the successor's cost; a turn predecessor must
    /// additionally terminate a weight-consistent forward hop.
    /// Returns the cheapest cost of reaching the end cell.
    pub fn mark_shortest_path(&mut self, start: XY, end: XY) -> (r: i64)
        requires
            old(self).wf(),
            0 <= start.x < old(self).width,
            0 <= start.y < old(self).height,
            0 <= end.x < old(self).width,
            0 <= end.y < old(self).height,
            old(self).cells[end.y * old(self).width + end.x].floor,
            old(self).costs_good(start),
            old(self).cell_best_weight(end.y * old(self).width + end.x) < INFINITE_COST,
        ensures
            final(self).wf(),
            final(self).costs_good(start),
            final(self).nodes == old(self).nodes,
            final(self).width == old(self).width,
            final(self).height == old(self).height,
            final(self).cells.len() == old(self).cells.len(),
            final(self).routes.len() == old(self).routes.len(),
            forall|ci: int|
                0 <= ci < old(self).cells.len() ==> (#[trigger] final(self).cells[ci]).floor
                    == old(self).cells[ci].floor,
            forall|id: int|
                0 <= id < old(self).routes.len() ==> #[trigger] final(self).weight(id) == old(
                self).weight(id),
            forall|id: int|
                0 <= id < old(self).routes.len() ==> same_edges(
                    #[trigger] final(self).routes[id], old(self).routes[id]),
            forall|ci: int|
                0 <= ci < old(self).cells.len() && (#[trigger] old(self).cells[
                ci]).is_on_primary_path ==> final(self).cells[ci].is_on_primary_path,
            forall|ci: int|
                0 <= ci < old(self).cells.len() && (#[trigger] old(self).cells[
                ci]).is_on_secondary_path ==> final(self).cells[ci].is_on_secondary_path,
            r == old(self).cell_best_weight(end.y * old(self).width + end.x),
            final(self).cells[end.y * old(self).width + end.x].is_on_primary_path,
            final(self).cells[start.y * old(self).width + start.x].is_on_primary_path,
            forall|ci: int|
                0 <= ci < old(self).cells.len() && (#[trigger] final(self).cells[
                ci]).is_on_primary_path && !old(self).cells[ci].is_on_primary_path
                    ==> exists|v: int|
                    n_cell(v) == ci && final(self).valid_node(v) && final(self).weight(v)
                        < INFINITE_COST && final(self).weight(v) <= r,
            // the primary marks are exactly the cells of a recorded
            // backward walk of least-cost back-references from the
            // chosen cheapest arrival
            exists|walk: Seq<int>|
                {
                    &&& #[trigger] final(self).primary_walk(
                        walk,
                        final(self).chosen_arrival(end.y * old(self).width + end.x)->Some_0,
                        start.y * old(self).width + start.x,
                    )
                    &&& forall|ci: int|
                        0 <= ci < old(self).cells.len() ==> ((#[trigger] final(self).cells[
                        ci]).is_on_primary_path <==> old(self).cells[ci].is_on_primary_path
                            || exists|i: int| 0 <= i < walk.len() && n_cell(#[trigger] walk[i])
                            == ci)
                },
            // every cell newly marked as on some optimal path owns a
            // route node from which a weight-consistent chain leads to
            // a cheapest arrival at the end cell
            exists|b: int|
                final(self).valid_node(b) && n_cell(b) == end.y * old(self).width + end.x
                    && #[trigger] final(self).weight(b) == r && forall|ci: int|
                    0 <= ci < final(self).cells.len() && (#[trigger] final(self).cells[
                    ci]).is_on_secondary_path && !old(self).cells[ci].is_on_secondary_path
                        ==> exists|v: int|
                        n_cell(v) == ci && final(self).on_best_chain(v, b),
    {
        let ghost fn_old = *old(self);
        let primary_best = self.mark_primary_shortest_path(start, end);

        proof {
            lemma_rc_to_ci(self.width as int, self.height as int, end.y as int, end.x as int);
        }
        let eci = (end.y as usize) * self.width + (end.x as usize);
        let (best_route_opt, best_weight) = self.best_route_at(eci);
        let best_start = match best_route_opt {
            Some(b) => b,
            None => {
                proof {
                    assert(false);
                }
                0
            },
        };
        let ghost bnode = best_start as int;
        let ghost orig = *self;

        let mut current_routes: Vec<usize> = Vec::new();
        current_routes.push(best_start);
        let mut current_weight = best_weight;
        // termination fuel: on a checked relaxation outcome every
        // accepted predecessor strictly lowers the cost, so real runs
        // stop long before this bound
        let mut fuel: u64 = 0x1000_0000_0000_0000;

        proof {
            let ch0 = seq![bnode];
            assert(ch0[0] == bnode);
            assert(self.consistent_chain(ch0));
            assert(ch0.first() == bnode && ch0.last() == bnode);
            assert(self.consistent_chain(ch0) && ch0.first() == bnode && ch0.last() == bnode);
            assert(self.on_best_chain(bnode, bnode));
        }

        while current_routes.len() > 0 && fuel > 0
            invariant
                self.wf(),
                self.costs_good(start),
                self.nodes == orig.nodes,
                self.width == orig.width,
                self.height == orig.height,
                self.cells.len() == orig.cells.len(),
                self.routes.len() == orig.routes.len(),
                self.valid_node(bnode),
                self.floor_node(bnode),
                forall|ci: int|
                    0 <= ci < orig.cells.len() ==> (#[trigger] self.cells[ci]).floor
                        == orig.cells[ci].floor,
                forall|id: int|
                    0 <= id < orig.routes.len() ==> #[trigger] self.weight(id) == orig.weight(id),
                forall|id: int|
                    0 <= id < orig.routes.len() ==> same_edges(
                        #[trigger] self.routes[id], orig.routes[id]),
                forall|ci: int|
                    0 <= ci < orig.cells.len() ==> (#[trigger] self.cells[
                    ci]).is_on_primary_path == orig.cells[ci].is_on_primary_path,
                forall|ci: int|
                    0 <= ci < orig.cells.len() && (#[trigger] orig.cells[
                    ci]).is_on_secondary_path ==> self.cells[ci].is_on_secondary_path,
                forall|k: int|
                    0 <= k < current_routes.len() ==> self.valid_node(
                        #[trigger] current_routes[k] as int) && self.floor_node(
                        current_routes[k] as int) && self.weight(current_routes[k] as int)
                        < INFINITE_COST && self.on_best_chain(current_routes[k] as int, bnode),
                forall|ci: int|
                    0 <= ci < self.cells.len() && (#[trigger] self.cells[
                    ci]).is_on_secondary_path && !orig.cells[ci].is_on_secondary_path
                        ==> exists|v: int| n_cell(v) == ci && self.on_best_chain(v, bnode),
            decreases fuel,
        {
            let route = current_routes.pop().unwrap();
            let ghost pre_pop = *self;
            self.set_marks(route, false, true);
            proof {
                self.lemma_node_fields(route as int);
                assert forall|k: int|
                    0 <= k < current_routes.len() implies self.on_best_chain(
                    #[trigger] current_routes[k] as int, bnode) by {
                    pre_pop.lemma_chain_frame(*self, current_routes[k] as int, bnode);
                }
                pre_pop.lemma_chain_frame(*self, route as int, bnode);
                assert forall|ci: int|
                    0 <= ci < self.cells.len() && (#[trigger] self.cells[
                    ci]).is_on_secondary_path && !orig.cells[ci].is_on_secondary_path
                        implies exists|v: int| n_cell(v) == ci && self.on_best_chain(v, bnode) by {
                    if ci == n_cell(route as int) {
                        assert(n_cell(route as int) == ci && self.on_best_chain(
                            route as int, bnode));
                    } else {
                        assert(pre_pop.cells[ci].is_on_secondary_path);
                        let v = choose|v: int|
                            n_cell(v) == ci && pre_pop.on_best_chain(v, bnode);
                        pre_pop.lemma_chain_frame(*self, v, bnode);
                    }
                }
            }
            current_weight = self.routes[route].node_weight;

            let rci = route / 4;
            let rrow = rci / self.width;
            let rcol = rci % self.width;
            if rrow == start.y as usize && rcol == start.x as usize {
                fuel = fuel - 1;
                continue ;
            }

            proof {
                self.lemma_targets_ok(route as int, Turn::Forward);
                self.lemma_targets_ok(route as int, Turn::Left);
                self.lemma_targets_ok(route as int, Turn::Right);
                assert(self.route_ok(route as int));
            }
            let rt = self.routes[route];
            let srcs: [Option<usize>; 3] = [rt.src_forward, rt.src_left, rt.src_right];
            let mut si: usize = 0;
            while si < 3
                invariant
                    self.wf(),
                    self.costs_good(start),
                    si <= 3,
                    srcs@.len() == 3,
                    self.valid_node(route as int),
                    self.floor_node(route as int),
                    self.valid_node(bnode),
                    self.weight(route as int) < INFINITE_COST,
                    current_weight == self.weight(route as int),
                    self.on_best_chain(route as int, bnode),
                    forall|j: int|
                        0 <= j < 3 ==> (#[trigger] srcs@[j] matches Some(s) ==> self.valid_node(
                            s as int) && self.floor_node(s as int)),
                    forall|k: int|
                        0 <= k < current_routes.len() ==> self.valid_node(
                            #[trigger] current_routes[k] as int) && self.floor_node(
                            current_routes[k] as int) && self.weight(current_routes[k] as int)
                            < INFINITE_COST && self.on_best_chain(current_routes[k] as int, bnode),
                decreases 3 - si,
            {
                let opt_source = srcs[si];
                if let Some(source_node_id) = opt_source {
                    let accepted = self.consistent_predecessor(source_node_id, route,
                        current_weight);
                    if accepted {
                        current_routes.push(source_node_id);
                        proof {
                            let t = choose|t: Turn|
                                #[trigger] self.consistent_step(
                                    source_node_id as int, route as int, t);
                            let ch = choose|ch: Seq<int>|
                                self.consistent_chain(ch) && ch.first() == route as int
                                    && ch.last() == bnode;
                            self.lemma_chain_extend(source_node_id as int, ch, t);
                            assert(self.on_best_chain(source_node_id as int, bnode));
                        }
                    }
                }
                si = si + 1;
            }
            fuel = fuel - 1;
        }
        proof {
            assert(self.weight(bnode) == best_weight);
            // the primary marks were laid down by the recorded walk
            // and the exhaustive sweep never touches them; the walk
            // itself reads only costs and edges, which stood still
            reveal(MazeGraph::primary_walk);
            assert(primary_best == best_weight && primary_best < INFINITE_COST);
            let walk = choose|walk: Seq<int>|
                {
                    &&& #[trigger] orig.primary_walk(
                        walk,
                        orig.chosen_arrival(end.y * fn_old.width + end.x)->Some_0,
                        start.y * fn_old.width + start.x,
                    )
                    &&& forall|ci: int|
                        0 <= ci < fn_old.cells.len() ==> ((#[trigger] orig.cells[
                        ci]).is_on_primary_path <==> fn_old.cells[ci].is_on_primary_path
                            || exists|i: int| 0 <= i < walk.len() && n_cell(#[trigger] walk[i])
                            == ci)
                };
            assert forall|v: int|
                0 <= v < orig.routes.len() implies #[trigger] self.chosen_source(v)
                == orig.chosen_source(v) by {
                assert(orig.route_ok(v));
                if orig.floor_node(v) {
                    orig.lemma_targets_ok(v, Turn::Forward);
                    orig.lemma_targets_ok(v, Turn::Left);
                    orig.lemma_targets_ok(v, Turn::Right);
                }
                assert(same_edges(self.routes[v], orig.routes[v]));
                assert forall|id: int, t: Turn|
                    0 <= id < orig.routes.len() implies #[trigger] orig.spec_src(id, t)
                    == self.spec_src(id, t) by {
                    assert(same_edges(self.routes[id], orig.routes[id]));
                }
                MazeGraph::lemma_chosen_source_frame(orig, *self, v);
            }
            assert(self.chosen_arrival(end.y * fn_old.width + end.x) == orig.chosen_arrival(
                end.y * fn_old.width + end.x)) by {
                reveal(MazeGraph::chosen_arrival);
                assert(self.cell_best_weight(eci as int) == orig.cell_best_weight(eci as int));
            }
            assert(self.primary_walk(
                walk,
                self.chosen_arrival(end.y * fn_old.width + end.x)->Some_0,
                start.y * fn_old.width + start.x,
            ));
            assert forall|ci: int|
                0 <= ci < fn_old.cells.len() implies ((#[trigger] self.cells[
                ci]).is_on_primary_path <==> fn_old.cells[ci].is_on_primary_path || exists|
                i: int|
                0 <= i < walk.len() && n_cell(#[trigger] walk[i]) == ci) by {
                assert(self.cells[ci].is_on_primary_path == orig.cells[ci].is_on_primary_path);
            }
        }
        best_weight
    }

    /// Whether `source_node` reaches `route` by a weight-consistent
    /// edge whose kind the reconstruction accepts: a forward edge
    /// counts at once; a turn edge counts only when a further
    /// weight-consistent forward hop enters `source_node`.
    fn consistent_predecessor(&self, source_node: usize, route: usize, current_weight: i64) -> (r:
        bool)
        requires
            self.wf(),
            self.valid_node(source_node as int),
            self.floor_node(source_node as int),
            self.valid_node(route as int),
            current_weight == self.weight(route as int),
            current_weight < INFINITE_COST,
            self.weights_bounded(),
        ensures
            r == self.accepted_predecessor(source_node as int, route as int),
            r ==> exists|t: Turn| self.consistent_step(source_node as int, route as int, t),
            r ==> self.weight(source_node as int) < INFINITE_COST,
    {
        proof {
            self.lemma_targets_ok(source_node as int, Turn::Forward);
            self.lemma_targets_ok(source_node as int, Turn::Left);
            self.lemma_targets_ok(source_node as int, Turn::Right);
            assert(self.route_ok(source_node as int));
        }
        let source = self.routes[source_node];
        if source.node_weight == INFINITE_COST {
            return false;
        }
        let mut accepted = false;

        if let Some(connection) = source.dest_forward {
            if connection.target == route && source.node_weight + connection.weight
                == current_weight {
                proof {
                    assert(self.consistent_step(source_node as int, route as int, Turn::Forward));
                }
                accepted = true;
            }
        }
        if !accepted {
            let turn_matches = self.turn_edge_matches(source_node, route, current_weight);
            if turn_matches {
                // a turn predecessor helps only if it itself ends a
                // genuine forward hop with matching weights
                if self.has_consistent_forward_hop(source_node) {
                    accepted = true;
                }
            }
        }
        accepted
    }

    /// Whether some turn edge out of `source_node` reaches `route`
    /// with exactly matching weights.
    fn turn_edge_matches(&self, source_node: usize, route: usize, current_weight: i64) -> (r: bool)
        requires
            self.wf(),
            self.valid_node(source_node as int),
            self.floor_node(source_node as int),
            self.valid_node(route as int),
            current_weight == self.weight(route as int),
            self.weight(source_node as int) < INFINITE_COST,
            self.weights_bounded(),
        ensures
            r == (self.consistent_step(source_node as int, route as int, Turn::Left)
                || self.consistent_step(source_node as int, route as int, Turn::Right)),
            r ==> exists|t: Turn| self.consistent_step(source_node as int, route as int, t),
    {
        proof {
            self.lemma_targets_ok(source_node as int, Turn::Left);
            self.lemma_targets_ok(source_node as int, Turn::Right);
            assert(self.route_ok(source_node as int));
        }
        let source = self.routes[source_node];
        let mut matched = false;
        if let Some(connection) = source.dest_left {
            if connection.target == route && source.node_weight + connection.weight
                == current_weight {
                proof {
                    assert(self.consistent_step(source_node as int, route as int, Turn::Left));
                }
                matched = true;
            }
        }
        if !matched {
            if let Some(connection) = source.dest_right {
                if connection.target == route && source.node_weight + connection.weight
                    == current_weight {
                    proof {
                        assert(self.consistent_step(source_node as int, route as int,
                            Turn::Right));
                    }
                    matched = true;
                }
            }
        }
        matched
    }

    /// Whether some further predecessor reaches `source_node` by a
    /// weight-consistent forward edge.  Only the forward
    /// back-reference can, since a forward edge always lands on it.
    fn has_consistent_forward_hop(&self, source_node: usize) -> (r: bool)
        requires
            self.wf(),
            self.valid_node(source_node as int),
            self.floor_node(source_node as int),
            self.weight(source_node as int) < INFINITE_COST,
            self.weights_bounded(),
        ensures
            r == exists|u: int|
                #[trigger] self.consistent_step(u, source_node as int, Turn::Forward),
    {
        proof {
            self.lemma_targets_ok(source_node as int, Turn::Forward);
            self.lemma_targets_ok(source_node as int, Turn::Left);
            self.lemma_targets_ok(source_node as int, Turn::Right);
            assert(self.route_ok(source_node as int));
        }
        let source = self.routes[source_node];
        let source_weight = source.node_weight;
        let srcs: [Option<usize>; 3] = [source.src_forward, source.src_left, source.src_right];
        let mut si: usize = 0;
        let mut found = false;
        while si < 3
            invariant
                self.wf(),
                si <= 3,
                srcs@.len() == 3,
                self.weights_bounded(),
                self.valid_node(source_node as int),
                self.floor_node(source_node as int),
                source_weight == self.weight(source_node as int),
                srcs@[0] == self.routes[source_node as int].src_forward,
                forall|j: int|
                    0 <= j < 3 ==> (#[trigger] srcs@[j] matches Some(s) ==> self.valid_node(
                        s as int) && self.floor_node(s as int)),
                found <==> si >= 1 && exists|u: int|
                    #[trigger] self.consistent_step(u, source_node as int, Turn::Forward),
            decreases 3 - si,
        {
            let ghost pre_found = found;
            if let Some(hop_node_id) = srcs[si] {
                proof {
                    self.lemma_targets_ok(hop_node_id as int, Turn::Forward);
                    assert(self.route_ok(hop_node_id as int));
                }
                let hop = self.routes[hop_node_id];
                if let Some(hop_connection) = hop.dest_forward {
                    if hop_connection.target == source_node && hop.node_weight != INFINITE_COST
                        && hop.node_weight + hop_connection.weight == source_weight {
                        found = true;
                        proof {
                            assert(self.consistent_step(
                                hop_node_id as int,
                                source_node as int,
                                Turn::Forward,
                            ));
                        }
                    }
                }
            }
            proof {
                // completeness at the first slot: a consistent
                // forward hop can only come through the forward
                // back-reference, which slot zero holds
                if si == 0 && !found {
                    if exists|u: int|
                        #[trigger] self.consistent_step(u, source_node as int, Turn::Forward) {
                        let u = choose|u: int|
                            #[trigger] self.consistent_step(u, source_node as int, Turn::Forward);
                        self.lemma_dest_src_inverse(u, Turn::Forward);
                        assert(self.spec_src(source_node as int, Turn::Forward) is Some
                            && self.spec_src(source_node as int, Turn::Forward)->Some_0 as int
                            == u);
                        assert(srcs@[0] matches Some(h) && h as int == u);
                        assert(false);
                    }
                }
            }
            si = si + 1;
        }
        found
    }
}


impl MazeGraph {
    /// Decides whether the recorded costs form a checked relaxation
    /// outcome: start node at zero, every cost bounded or sentinel, no
    /// edge overshoot, and every reached node achieved through some
    /// predecessor.  Exactly `costs_good`.
    pub fn check_costs(&self, start: XY) -> (r: bool)
        requires
            self.wf(),
            0 <= start.x < self.width,
            0 <= start.y < self.height,
        ensures
            r == self.costs_good(start),
    {
        proof {
            lemma_rc_to_ci(self.width as int, self.height as int, start.y as int, start.x as int);
            lemma_ci_di_to_id(self.num_cells(), (start.y as int) * (self.width as int) + (
            start.x as int), spec_dir_index(Direction::East));
        }
        let sci = (start.y as usize) * self.width + (start.x as usize);
        let sid = sci * 4 + Direction::East.index();
        proof {
            assert(sid == self.start_node(start));
        }
        if self.routes[sid].node_weight != 0 {
            return false;
        }

        let total = self.width * self.height;
        let node_total = 4 * total;
        let cap: i64 = 1001 * (node_total as i64);
        proof {
            assert(cap == self.weight_cap());
        }

        // every cost is the sentinel or bounded
        let mut id: usize = 0;
        while id < node_total
            invariant
                self.wf(),
                node_total == self.node_count(),
                cap == self.weight_cap(),
                id <= node_total,
                forall|j: int|
                    0 <= j < id ==> #[trigger] self.weight(j) == INFINITE_COST || (0
                        <= self.weight(j) <= self.weight_cap()),
            decreases node_total - id,
        {
            let w = self.routes[id].node_weight;
            if w != INFINITE_COST && (w < 0 || w > cap) {
                proof {
                    assert(!(self.weight(id as int) == INFINITE_COST || (0 <= self.weight(
                        id as int) <= self.weight_cap())));
                }
                return false;
            }
            id = id + 1;
        }
        proof {
            assert(self.weights_bounded());
        }

        // no edge overshoots, and every reached node is achieved
        let mut id: usize = 0;
        while id < node_total
            invariant
                self.wf(),
                self.weights_bounded(),
                node_total == self.node_count(),
                sid == self.start_node(start),
                id <= node_total,
                forall|u: int, t: Turn|
                    0 <= u < id && self.weight(u) < INFINITE_COST && (#[trigger] self.spec_dest(
                        u, t)) is Some ==> self.weight(self.spec_dest(u, t)->Some_0.target as int)
                        <= self.weight(u) + self.spec_dest(u, t)->Some_0.weight,
                forall|v: int|
                    0 <= v < id && #[trigger] self.weight(v) < INFINITE_COST && v != self.start_node(
                        start) ==> exists|t: Turn|
                        (#[trigger] self.spec_src(v, t)) is Some && self.weight(
                            self.spec_src(v, t)->Some_0 as int) < INFINITE_COST && self.weight(
                            self.spec_src(v, t)->Some_0 as int) + turn_cost(t) == self.weight(v),
            decreases node_total - id,
        {
            let w = self.routes[id].node_weight;
            if w != INFINITE_COST {
                proof {
                    assert(self.route_ok(id as int));
                    assert(self.floor_node(id as int));
                    self.lemma_targets_ok(id as int, Turn::Forward);
                    self.lemma_targets_ok(id as int, Turn::Left);
                    self.lemma_targets_ok(id as int, Turn::Right);
                    assert(self.route_ok(id as int));
                }
                let rt = self.routes[id];
                if let Some(wc) = rt.dest_forward {
                    if self.routes[wc.target].node_weight > w + wc.weight {
                        return false;
                    }
                }
                if let Some(wc) = rt.dest_left {
                    if self.routes[wc.target].node_weight > w + wc.weight {
                        return false;
                    }
                }
                if let Some(wc) = rt.dest_right {
                    if self.routes[wc.target].node_weight > w + wc.weight {
                        return false;
                    }
                }
                proof {
                    assert forall|t: Turn|
                        self.weight(id as int) < INFINITE_COST && (#[trigger] self.spec_dest(
                            id as int, t)) is Some implies self.weight(
                        self.spec_dest(id as int, t)->Some_0.target as int) <= self.weight(
                        id as int) + self.spec_dest(id as int, t)->Some_0.weight by {
                        match t {
                            Turn::Forward => {},
                            Turn::Left => {},
                            Turn::Right => {},
                        }
                    }
                }

                if id != sid {
                    let mut achieved = false;
                    if let Some(s) = rt.src_forward {
                        let sw = self.routes[s].node_weight;
                        if sw != INFINITE_COST && sw + MOVE_COST == w {
                            achieved = true;
                            proof {
                                assert(self.spec_src(id as int, Turn::Forward) is Some
                                    && self.weight(self.spec_src(id as int,
                                    Turn::Forward)->Some_0 as int) < INFINITE_COST && self.weight(
                                    self.spec_src(id as int, Turn::Forward)->Some_0 as int)
                                    + turn_cost(Turn::Forward) == self.weight(id as int));
                            }
                        }
                    }
                    if !achieved {
                        if let Some(s) = rt.src_left {
                            let sw = self.routes[s].node_weight;
                            if sw != INFINITE_COST && sw + TURN_COST == w {
                                achieved = true;
                                proof {
                                    assert(self.spec_src(id as int, Turn::Left) is Some
                                        && self.weight(self.spec_src(id as int,
                                        Turn::Left)->Some_0 as int) < INFINITE_COST
                                        && self.weight(self.spec_src(id as int,
                                        Turn::Left)->Some_0 as int) + turn_cost(Turn::Left)
                                        == self.weight(id as int));
                                }
                            }
                        }
                    }
                    if !achieved {
                        if let Some(s) = rt.src_right {
                            let sw = self.routes[s].node_weight;
                            if sw != INFINITE_COST && sw + TURN_COST == w {
                                achieved = true;
                                proof {
                                    assert(self.spec_src(id as int, Turn::Right) is Some
                                        && self.weight(self.spec_src(id as int,
                                        Turn::Right)->Some_0 as int) < INFINITE_COST
                                        && self.weight(self.spec_src(id as int,
                                        Turn::Right)->Some_0 as int) + turn_cost(Turn::Right)
                                        == self.weight(id as int));
                                }
                            }
                        }
                    }
                    if !achieved {
                        proof {
                            assert forall|t: Turn|
                                !((#[trigger] self.spec_src(id as int, t)) is Some && self.weight(
                                    self.spec_src(id as int, t)->Some_0 as int) < INFINITE_COST
                                    && self.weight(self.spec_src(id as int, t)->Some_0 as int)
                                    + turn_cost(t) == self.weight(id as int)) by {
                                match t {
                                    Turn::Forward => {},
                                    Turn::Left => {},
                                    Turn::Right => {},
                                }
                            }
                        }
                        return false;
                    }
                }
            }
            id = id + 1;
        }
        true
    }
}


impl MazeGraph {
    /// Whether some edge leads from `a` straight to `b`.
    pub open spec fn edge_to(self, a: int, b: int) -> bool {
        exists|t: Turn|
            (#[trigger] self.spec_dest(a, t)) is Some && self.spec_dest(a, t)->Some_0.target == b
    }

    /// The cost of the edge from `a` to `b`: a move when the forward
    /// edge of `a` lands on `b`, a turn otherwise.  The three edges of
    /// a node lead to three distinct nodes, so this is unambiguous.
    pub open spec fn edge_cost(self, a: int, b: int) -> int {
        if self.spec_dest(a, Turn::Forward) is Some && self.spec_dest(
            a, Turn::Forward)->Some_0.target == b {
            MOVE_COST as int
        } else {
            TURN_COST as int
        }
    }

    /// A walk through the graph: a nonempty run of valid nodes, each
    /// with an edge to the next.
    pub open spec fn is_path(self, p: Seq<int>) -> bool {
        &&& p.len() >= 1
        &&& forall|i: int| 0 <= i < p.len() ==> self.valid_node(#[trigger] p[i])
        &&& forall|i: int| 0 <= i < p.len() - 1 ==> #[trigger] self.edge_to(p[i], p[i + 1])
    }

    /// The total edge cost of a walk.
    pub open spec fn path_cost(self, p: Seq<int>) -> int
        decreases p.len(),
    {
        if p.len() <= 1 {
            0
        } else {
            self.path_cost(p.drop_last()) + self.edge_cost(p[p.len() - 2], p[p.len() - 1])
        }
    }

    /// Every stored back-reference inverts a stored edge: the edge of
    /// the same kind out of the referenced node lands back on the
    /// node, at that kind's cost.
    pub proof fn lemma_src_edge(self, v: int, t: Turn)
        requires
            self.wf(),
            self.valid_node(v),
            self.floor_node(v),
            self.spec_src(v, t) is Some,
        ensures
            ({
                let s = self.spec_src(v, t)->Some_0 as int;
                &&& self.valid_node(s)
                &&& self.floor_node(s)
                &&& self.spec_dest(s, t) is Some
                &&& self.spec_dest(s, t)->Some_0.target == v
                &&& self.spec_dest(s, t)->Some_0.weight == turn_cost(t)
                &&& self.edge_to(s, v)
                &&& self.edge_cost(s, v) == turn_cost(t)
            }),
    {
        let w = self.width as int;
        let h = self.height as int;
        assert(self.route_ok(v));
        self.lemma_node_fields(v);
        self.lemma_targets_ok(v, t);
        let s = self.spec_src(v, t)->Some_0 as int;
        assert(self.route_ok(s));
        self.lemma_node_fields(s);
        let vci = n_cell(v);
        let vrow = self.cell_row(vci);
        let vcol = self.cell_col(vci);
        match t {
            Turn::Forward => {
                // the node one step behind, facing the same way; its
                // forward edge steps back onto this cell
                assert(self.back_exists(v));
                assert(s == self.back_cell(v) * 4 + n_dir(v));
                lemma_rc_to_ci(w, h, self.back_row(v), self.back_col(v));
                lemma_ci_di_to_id(self.num_cells(), self.back_cell(v), n_dir(v));
                assert(n_cell(s) == self.back_cell(v) && n_dir(s) == n_dir(v));
                assert(self.node_dir(s) == self.node_dir(v));
                assert(self.cell_row(n_cell(s)) == self.back_row(v));
                assert(self.cell_col(n_cell(s)) == self.back_col(v));
                assert(self.fwd_row(s) == vrow);
                assert(self.fwd_col(s) == vcol);
                lemma_rc_to_ci(w, h, vrow, vcol);
                assert(self.fwd_cell(s) == vci);
                assert(self.fwd_in_bounds(s));
                assert(self.fwd_exists(s));
                assert(self.fwd_target(s) == vci * 4 + n_dir(v));
                assert(self.fwd_target(s) == v);
                assert(self.spec_dest(s, Turn::Forward) is Some && self.spec_dest(
                    s, Turn::Forward)->Some_0.target == v);
            },
            Turn::Left => {
                // a left turn enters `v` from the node facing one
                // quarter turn clockwise on the same cell
                assert(s == self.right_target(v));
                lemma_ci_di_to_id(self.num_cells(), vci, spec_dir_index(
                    self.node_dir(v).spec_clockwise()));
                assert(n_cell(s) == vci && n_dir(s) == spec_dir_index(
                    self.node_dir(v).spec_clockwise()));
                assert(self.node_dir(s) == self.node_dir(v).spec_clockwise());
                assert(self.node_dir(s).spec_counter_clockwise() == self.node_dir(v));
                assert(self.left_target(s) == vci * 4 + spec_dir_index(self.node_dir(v)));
                assert(self.left_target(s) == v);
                assert(self.spec_dest(s, Turn::Left) is Some && self.spec_dest(
                    s, Turn::Left)->Some_0.target == v);
                // the forward edge of `s` leaves the cell, so it
                // cannot land on `v`
                if self.spec_dest(s, Turn::Forward) is Some {
                    assert(self.fwd_exists(s));
                    lemma_rc_to_ci(w, h, self.fwd_row(s), self.fwd_col(s));
                    lemma_ci_di_to_id(self.num_cells(), self.fwd_cell(s), n_dir(s));
                    assert(self.cell_row(self.fwd_cell(s)) == self.fwd_row(s));
                    assert(self.cell_col(self.fwd_cell(s)) == self.fwd_col(s));
                    lemma_rc_to_ci(w, h, vrow, vcol);
                    assert(self.fwd_cell(s) != vci);
                    assert(self.fwd_target(s) != v);
                }
            },
            Turn::Right => {
                assert(s == self.left_target(v));
                lemma_ci_di_to_id(self.num_cells(), vci, spec_dir_index(
                    self.node_dir(v).spec_counter_clockwise()));
                assert(n_cell(s) == vci && n_dir(s) == spec_dir_index(
                    self.node_dir(v).spec_counter_clockwise()));
                assert(self.node_dir(s) == self.node_dir(v).spec_counter_clockwise());
                assert(self.node_dir(s).spec_clockwise() == self.node_dir(v));
                assert(self.right_target(s) == vci * 4 + spec_dir_index(self.node_dir(v)));
                assert(self.right_target(s) == v);
                assert(self.spec_dest(s, Turn::Right) is Some && self.spec_dest(
                    s, Turn::Right)->Some_0.target == v);
                if self.spec_dest(s, Turn::Forward) is Some {
                    assert(self.fwd_exists(s));
                    lemma_rc_to_ci(w, h, self.fwd_row(s), self.fwd_col(s));
                    lemma_ci_di_to_id(self.num_cells(), self.fwd_cell(s), n_dir(s));
                    assert(self.cell_row(self.fwd_cell(s)) == self.fwd_row(s));
                    assert(self.cell_col(self.fwd_cell(s)) == self.fwd_col(s));
                    lemma_rc_to_ci(w, h, vrow, vcol);
                    assert(self.fwd_cell(s) != vci);
                    assert(self.fwd_target(s) != v);
                }
            },
        }
    }

    /// Any edge of the graph costs what its stored connection says.
    pub proof fn lemma_edge_cost_matches(self, a: int, b: int, t: Turn)
        requires
            self.wf(),
            self.valid_node(a),
            self.spec_dest(a, t) is Some,
            self.spec_dest(a, t)->Some_0.target == b,
        ensures
            self.edge_to(a, b),
            self.edge_cost(a, b) == self.spec_dest(a, t)->Some_0.weight,
    {
        assert(self.route_ok(a));
        if !self.floor_node(a) {
            assert(self.spec_dest(a, t) is None);
        }
        self.lemma_node_fields(a);
        match t {
            Turn::Forward => {},
            Turn::Left => {
                // the forward edge, when present, leaves the cell,
                // while the left target stays on it
                if self.spec_dest(a, Turn::Forward) is Some && self.spec_dest(
                    a, Turn::Forward)->Some_0.target == b {
                    let w = self.width as int;
                    let h = self.height as int;
                    assert(self.fwd_exists(a));
                    lemma_rc_to_ci(w, h, self.fwd_row(a), self.fwd_col(a));
                    lemma_ci_di_to_id(self.num_cells(), self.fwd_cell(a), n_dir(a));
                    lemma_rc_to_ci(w, h, self.cell_row(n_cell(a)), self.cell_col(n_cell(a)));
                    lemma_ci_di_to_id(self.num_cells(), n_cell(a), spec_dir_index(
                        self.node_dir(a).spec_counter_clockwise()));
                    assert(self.fwd_cell(a) != n_cell(a));
                    assert(n_cell(self.fwd_target(a)) != n_cell(self.left_target(a)));
                    assert(false);
                }
            },
            Turn::Right => {
                if self.spec_dest(a, Turn::Forward) is Some && self.spec_dest(
                    a, Turn::Forward)->Some_0.target == b {
                    let w = self.width as int;
                    let h = self.height as int;
                    assert(self.fwd_exists(a));
                    lemma_rc_to_ci(w, h, self.fwd_row(a), self.fwd_col(a));
                    lemma_ci_di_to_id(self.num_cells(), self.fwd_cell(a), n_dir(a));
                    lemma_rc_to_ci(w, h, self.cell_row(n_cell(a)), self.cell_col(n_cell(a)));
                    lemma_ci_di_to_id(self.num_cells(), n_cell(a), spec_dir_index(
                        self.node_dir(a).spec_clockwise()));
                    assert(self.fwd_cell(a) != n_cell(a));
                    assert(n_cell(self.fwd_target(a)) != n_cell(self.right_target(a)));
                    assert(false);
                }
            },
        }
    }
}


impl MazeGraph {
    /// Path-consistency law: along a weight-consistent chain the edge
    /// costs telescope, so the chain is a walk whose total cost is
    /// exactly the difference of the recorded costs at its two ends.
    /// Swapping any link of a reconstructed path for another
    /// consistent predecessor therefore leaves the total unchanged.
    pub proof fn lemma_consistent_chain_cost(self, ch: Seq<int>)
        requires
            self.wf(),
            self.consistent_chain(ch),
        ensures
            self.is_path(ch),
            self.path_cost(ch) == self.weight(ch.last()) - self.weight(ch.first()),
        decreases ch.len(),
    {
        if ch.len() == 1 {
            assert(self.is_path(ch));
        } else {
            let pre = ch.drop_last();
            assert(pre.len() == ch.len() - 1);
            assert forall|i: int| 0 <= i < pre.len() - 1 implies #[trigger] self.chain_link(
                pre, i) by {
                assert(self.chain_link(ch, i));
                let t = choose|t: Turn| #[trigger] self.consistent_step(ch[i], ch[i + 1], t);
                assert(pre[i] == ch[i] && pre[i + 1] == ch[i + 1]);
                assert(self.consistent_step(pre[i], pre[i + 1], t));
            }
            assert(self.consistent_chain(pre));
            self.lemma_consistent_chain_cost(pre);
            let a = ch[ch.len() - 2];
            let b = ch[ch.len() - 1];
            assert(self.chain_link(ch, ch.len() - 2));
            let t = choose|t: Turn| #[trigger] self.consistent_step(a, b, t);
            self.lemma_edge_cost_matches(a, b, t);
            assert(self.edge_cost(a, b) == self.spec_dest(a, t)->Some_0.weight);
            assert(self.weight(b) == self.weight(a) + self.edge_cost(a, b));
            assert(pre.last() == a && pre.first() == ch.first());
            assert(self.path_cost(ch) == self.path_cost(pre) + self.edge_cost(a, b));
            assert forall|i: int| 0 <= i < ch.len() - 1 implies #[trigger] self.edge_to(
                ch[i], ch[i + 1]) by {
                if i < ch.len() - 2 {
                    assert(self.edge_to(pre[i], pre[i + 1]));
                    assert(pre[i] == ch[i] && pre[i + 1] == ch[i + 1]);
                } else {
                    assert(self.edge_to(a, b));
                }
            }
            assert(self.is_path(ch));
        }
    }

    /// Lower-bound half of the shortest-path law: under a checked
    /// relaxation outcome, no walk from the start node reaches a node
    /// more cheaply than its recorded cost.
    pub proof fn lemma_costs_lower_bound(self, start: XY, p: Seq<int>)
        requires
            self.wf(),
            self.costs_good(start),
            self.is_path(p),
            p.first() == self.start_node(start),
        ensures
            self.weight(p.last()) <= self.path_cost(p),
        decreases p.len(),
    {
        if p.len() == 1 {
            assert(self.weight(p.last()) == 0);
        } else {
            let pre = p.drop_last();
            assert forall|i: int| 0 <= i < pre.len() - 1 implies #[trigger] self.edge_to(
                pre[i], pre[i + 1]) by {
                assert(self.edge_to(p[i], p[i + 1]));
                assert(pre[i] == p[i] && pre[i + 1] == p[i + 1]);
            }
            assert(self.is_path(pre));
            self.lemma_costs_lower_bound(start, pre);
            let a = p[p.len() - 2];
            let b = p[p.len() - 1];
            assert(self.edge_to(p[p.len() - 2], p[p.len() - 2 + 1]));
            assert(self.edge_to(a, b));
            let t = choose|t: Turn|
                (#[trigger] self.spec_dest(a, t)) is Some && self.spec_dest(a, t)->Some_0.target
                    == b;
            self.lemma_edge_cost_matches(a, b, t);
            assert(pre.last() == a);
            if self.weight(a) < INFINITE_COST {
                // the checked outcome forbids any edge overshoot
                assert(self.weight(b) <= self.weight(a) + self.spec_dest(a, t)->Some_0.weight);
                assert(self.path_cost(p) == self.path_cost(pre) + self.edge_cost(a, b));
            } else {
                // an unreached link means the walk already costs at
                // least the sentinel
                assert(self.weight(a) == INFINITE_COST);
                assert(self.path_cost(pre) >= INFINITE_COST);
                assert(self.valid_node(b));
                assert(self.weight(b) == INFINITE_COST || (0 <= self.weight(b)
                    <= self.weight_cap()));
                assert(self.edge_cost(a, b) >= 1);
                assert(self.weight(b) <= INFINITE_COST <= self.path_cost(p));
            }
        }
    }

    /// Achievability half of the shortest-path law: under a checked
    /// relaxation outcome, every reached node is reached by an actual
    /// walk from the start node of exactly its recorded cost.
    pub proof fn lemma_costs_achieved(self, start: XY, v: int)
        requires
            self.wf(),
            self.costs_good(start),
            self.valid_node(v),
            self.weight(v) < INFINITE_COST,
        ensures
            exists|p: Seq<int>|
                {
                    &&& #[trigger] self.is_path(p)
                    &&& p.first() == self.start_node(start)
                    &&& p.last() == v
                    &&& self.path_cost(p) == self.weight(v)
                },
        decreases self.weight(v),
    {
        if v == self.start_node(start) {
            let p = seq![v];
            assert(self.is_path(p));
            assert(p.first() == self.start_node(start) && p.last() == v && self.path_cost(p)
                == self.weight(v));
        } else {
            let t = choose|t: Turn|
                (#[trigger] self.spec_src(v, t)) is Some && self.weight(
                    self.spec_src(v, t)->Some_0 as int) < INFINITE_COST && self.weight(
                    self.spec_src(v, t)->Some_0 as int) + turn_cost(t) == self.weight(v);
            assert(self.route_ok(v));
            if !self.floor_node(v) {
                assert(self.spec_src(v, t) is None);
            }
            let s = self.spec_src(v, t)->Some_0 as int;
            self.lemma_src_edge(v, t);
            assert(self.weight(s) < self.weight(v));
            assert(0 <= self.weight(s));
            self.lemma_costs_achieved(start, s);
            let pre = choose|p: Seq<int>|
                {
                    &&& #[trigger] self.is_path(p)
                    &&& p.first() == self.start_node(start)
                    &&& p.last() == s
                    &&& self.path_cost(p) == self.weight(s)
                };
            let p = pre.push(v);
            assert(p.last() == v && p.first() == self.start_node(start));
            assert(p.drop_last() == pre);
            assert forall|i: int| 0 <= i < p.len() - 1 implies #[trigger] self.edge_to(
                p[i], p[i + 1]) by {
                if i < pre.len() - 1 {
                    assert(self.edge_to(pre[i], pre[i + 1]));
                    assert(p[i] == pre[i] && p[i + 1] == pre[i + 1]);
                } else {
                    assert(p[i] == s && p[i + 1] == v);
                    assert(self.edge_to(s, v));
                }
            }
            assert forall|i: int| 0 <= i < p.len() implies self.valid_node(#[trigger] p[i]) by {
                if i < pre.len() {
                    assert(self.valid_node(pre[i]));
                }
            }
            assert(self.is_path(p));
            assert(self.path_cost(p) == self.path_cost(pre) + self.edge_cost(s, v));
            assert(self.path_cost(p) == self.weight(v));
        }
    }

    /// The shortest-path law: under a checked relaxation outcome the
    /// recorded cost of every reachable node equals the true least
    /// walk cost from the start node, and a node left at the sentinel
    /// has no walk cheaper than the sentinel.
    pub proof fn lemma_checked_costs_are_shortest(self, start: XY, v: int)
        requires
            self.wf(),
            self.costs_good(start),
            self.valid_node(v),
        ensures
            self.weight(v) < INFINITE_COST ==> exists|p: Seq<int>|
                {
                    &&& #[trigger] self.is_path(p)
                    &&& p.first() == self.start_node(start)
                    &&& p.last() == v
                    &&& self.path_cost(p) == self.weight(v)
                },
            forall|p: Seq<int>|
                #[trigger] self.is_path(p) && p.first() == self.start_node(start) && p.last() == v
                    ==> self.path_cost(p) >= self.weight(v),
    {
        if self.weight(v) < INFINITE_COST {
            self.lemma_costs_achieved(start, v);
        }
        assert forall|p: Seq<int>|
            #[trigger] self.is_path(p) && p.first() == self.start_node(start) && p.last()
                == v implies self.path_cost(p) >= self.weight(v) by {
            self.lemma_costs_lower_bound(start, p);
        }
    }
}


impl MazeGraph {
    /// The primary-path accounting law: a weight-consistent chain
    /// that begins on the start node is a real walk through the maze
    /// whose edge costs sum exactly to the recorded cost of its last
    /// node — in particular, to the reported best cost when the chain
    /// ends on a cheapest arrival at the end cell.  Replacing any
    /// link with another consistent predecessor keeps the sum.
    pub proof fn lemma_chain_from_start_costs_exactly(self, start: XY, ch: Seq<int>)
        requires
            self.wf(),
            self.costs_good(start),
            self.consistent_chain(ch),
            ch.first() == self.start_node(start),
        ensures
            self.is_path(ch),
            self.path_cost(ch) == self.weight(ch.last()),
    {
        self.lemma_consistent_chain_cost(ch);
    }
}


impl MazeGraph {
    /// Determinism of the reported numbers: the best cost read off at
    /// a cell and the seat count depend only on the recorded costs
    /// and marks.  Two graphs in the same state — in particular, one
    /// graph reconstructed twice, since reconstruction fixes the
    /// costs and only confirms existing marks — report the same best
    /// cost and the same seat count.
    pub proof fn lemma_reports_depend_only_on_state(self, other: MazeGraph, ci: int)
        requires
            self.cells@ == other.cells@,
            self.width == other.width,
            self.height == other.height,
            0 <= ci < self.num_cells(),
            forall|di: int|
                0 <= di < 4 ==> #[trigger] self.weight(ci * 4 + di) == other.weight(ci * 4 + di),
        ensures
            self.cell_best_weight(ci) == other.cell_best_weight(ci),
            self.seat_total() == other.seat_total(),
    {
        assert(self.weight(ci * 4 + 0) == other.weight(ci * 4 + 0));
        assert(self.weight(ci * 4 + 1) == other.weight(ci * 4 + 1));
        assert(self.weight(ci * 4 + 2) == other.weight(ci * 4 + 2));
        assert(self.weight(ci * 4 + 3) == other.weight(ci * 4 + 3));
        self.lemma_same_marks_same_seats(other, self.num_cells());
    }

    /// Equal marks give equal seat counts, cell by cell.
    pub proof fn lemma_same_marks_same_seats(self, other: MazeGraph, n: int)
        requires
            self.cells@ == other.cells@,
        ensures
            self.seats_upto(n) == other.seats_upto(n),
        decreases n,
    {
        if n > 0 {
            self.lemma_same_marks_same_seats(other, n - 1);
            assert(self.is_seat(n - 1) == other.is_seat(n - 1));
        }
    }
}


impl MazeGraph {
    /// The reported answer is optimal: under a checked relaxation
    /// outcome, a reachable end cell has an arrival node whose
    /// recorded cost is the reported best cost, an actual walk from
    /// the start node reaches it at exactly that cost, and no walk
    /// from the start node reaches any arrival at that cell more
    /// cheaply.
    pub proof fn lemma_reported_best_cost_is_optimal(self, start: XY, eci: int)
        requires
            self.wf(),
            self.costs_good(start),
            0 <= eci < self.num_cells(),
            self.cell_best_weight(eci) < INFINITE_COST,
        ensures
            exists|b: int|
                {
                    &&& n_cell(b) == eci
                    &&& self.valid_node(b)
                    &&& #[trigger] self.weight(b) == self.cell_best_weight(eci)
                    &&& exists|p: Seq<int>|
                        {
                            &&& #[trigger] self.is_path(p)
                            &&& p.first() == self.start_node(start)
                            &&& p.last() == b
                            &&& self.path_cost(p) == self.cell_best_weight(eci)
                        }
                },
            forall|b2: int, p: Seq<int>|
                #![trigger self.is_path(p), n_cell(b2)]
                n_cell(b2) == eci && self.is_path(p) && p.first() == self.start_node(start)
                    && p.last() == b2 ==> self.path_cost(p) >= self.cell_best_weight(eci),
    {
        let best = self.cell_best_weight(eci);
        lemma_ci_di_to_id(self.num_cells(), eci, 0);
        lemma_ci_di_to_id(self.num_cells(), eci, 1);
        lemma_ci_di_to_id(self.num_cells(), eci, 2);
        lemma_ci_di_to_id(self.num_cells(), eci, 3);
        let b: int = if self.weight(eci * 4 + 0) == best {
            eci * 4 + 0
        } else if self.weight(eci * 4 + 1) == best {
            eci * 4 + 1
        } else if self.weight(eci * 4 + 2) == best {
            eci * 4 + 2
        } else {
            eci * 4 + 3
        };
        assert(self.weight(b) == best && n_cell(b) == eci && self.valid_node(b));
        self.lemma_costs_achieved(start, b);
        assert forall|b2: int, p: Seq<int>|
            #![trigger self.is_path(p), n_cell(b2)]
            n_cell(b2) == eci && self.is_path(p) && p.first() == self.start_node(start)
                && p.last() == b2 implies self.path_cost(p) >= best by {
            self.lemma_costs_lower_bound(start, p);
            assert(self.valid_node(b2));
            vstd::arithmetic::div_mod::lemma_fundamental_div_mod(b2, 4);
            assert(0 <= b2 % 4 < 4) by (nonlinear_arith)
                requires b2 >= 0,
            ;
            assert(b2 == eci * 4 + n_dir(b2)) by (nonlinear_arith)
                requires
                    b2 == 4 * n_cell(b2) + n_dir(b2),
                    n_cell(b2) == eci,
            ;
            assert(self.weight(b2) >= best);
        }
    }
}


impl MazeGraph {
    /// A node the relaxation has finished with: a floor node no
    /// longer queued.
    pub open spec fn settled(self, id: int) -> bool {
        &&& self.valid_node(id)
        &&& self.floor_node(id)
        &&& !pq_view(self.nodes).dom().contains(id as usize)
    }

    /// No edge out of a settled node, except possibly `ex`, can still
    /// improve its target.
    #[verifier::opaque]
    pub open spec fn settled_fixpoint_except(self, ex: int) -> bool {
        forall|u: int, t: Turn|
            self.settled(u) && u != ex && self.weight(u) < INFINITE_COST && (
            #[trigger] self.spec_dest(u, t)) is Some ==> self.weight(
                self.spec_dest(u, t)->Some_0.target as int,
            ) <= self.weight(u) + self.spec_dest(u, t)->Some_0.weight
    }

    /// Every settled cost lies at or below every queued priority: the
    /// queue never holds anything cheaper than what already left it.
    #[verifier::opaque]
    pub open spec fn settled_below_queue(self) -> bool {
        forall|s: int, k: usize|
            #![trigger self.settled(s), pq_view(self.nodes).contains_key(k)]
            self.settled(s) && self.weight(s) < INFINITE_COST && pq_view(
                self.nodes,
            ).contains_key(k) ==> self.weight(s) <= pq_view(self.nodes)[k]
    }

    /// Every reached node other than the start was reached exactly
    /// through a settled predecessor, whose cost no longer moves.
    #[verifier::opaque]
    pub open spec fn achievable_via_settled(self, start: XY) -> bool {
        forall|v: int|
            self.valid_node(v) && #[trigger] self.weight(v) < INFINITE_COST && v
                != self.start_node(start) ==> exists|t: Turn|
                (#[trigger] self.spec_src(v, t)) is Some && self.settled(
                    self.spec_src(v, t)->Some_0 as int,
                ) && self.weight(self.spec_src(v, t)->Some_0 as int) < INFINITE_COST
                    && self.weight(self.spec_src(v, t)->Some_0 as int) + turn_cost(t)
                    == self.weight(v)
    }

    /// No edge loops back onto its own node: forward edges change
    /// cell, turn edges change direction.
    pub proof fn lemma_no_self_loop(self, u: int, t: Turn)
        requires
            self.wf(),
            self.valid_node(u),
            self.spec_dest(u, t) is Some,
        ensures
            self.spec_dest(u, t)->Some_0.target != u,
    {
        assert(self.route_ok(u));
        if !self.floor_node(u) {
            assert(self.spec_dest(u, t) is None);
        }
        self.lemma_node_fields(u);
        let w = self.width as int;
        let h = self.height as int;
        match t {
            Turn::Forward => {
                assert(self.fwd_exists(u));
                lemma_rc_to_ci(w, h, self.fwd_row(u), self.fwd_col(u));
                lemma_ci_di_to_id(self.num_cells(), self.fwd_cell(u), n_dir(u));
                if self.fwd_target(u) == u {
                    assert(self.fwd_cell(u) == n_cell(u));
                    assert(self.cell_row(self.fwd_cell(u)) == self.fwd_row(u));
                    assert(self.cell_col(self.fwd_cell(u)) == self.fwd_col(u));
                    assert(self.node_dir(u).spec_offset_x() != 0 || self.node_dir(
                        u,
                    ).spec_offset_y() != 0);
                    assert(false);
                }
            },
            Turn::Left => {
                lemma_ci_di_to_id(
                    self.num_cells(),
                    n_cell(u),
                    spec_dir_index(self.node_dir(u).spec_counter_clockwise()),
                );
                if self.left_target(u) == u {
                    assert(spec_dir_index(self.node_dir(u).spec_counter_clockwise()) == n_dir(u));
                    assert(false);
                }
            },
            Turn::Right => {
                lemma_ci_di_to_id(
                    self.num_cells(),
                    n_cell(u),
                    spec_dir_index(self.node_dir(u).spec_clockwise()),
                );
                if self.right_target(u) == u {
                    assert(spec_dir_index(self.node_dir(u).spec_clockwise()) == n_dir(u));
                    assert(false);
                }
            },
        }
    }

    /// Every stored edge inverts a stored back-reference: the
    /// back-reference of the same kind at the edge's target points
    /// straight back at the edge's source, and the edge costs what
    /// its kind costs.
    pub proof fn lemma_dest_src_inverse(self, u: int, t: Turn)
        requires
            self.wf(),
            self.valid_node(u),
            self.spec_dest(u, t) is Some,
        ensures
            ({
                let v = self.spec_dest(u, t)->Some_0.target as int;
                &&& self.valid_node(v)
                &&& self.floor_node(v)
                &&& self.spec_src(v, t) is Some
                &&& self.spec_src(v, t)->Some_0 == u
                &&& self.spec_dest(u, t)->Some_0.weight == turn_cost(t)
            }),
    {
        assert(self.route_ok(u));
        if !self.floor_node(u) {
            assert(self.spec_dest(u, t) is None);
        }
        self.lemma_node_fields(u);
        self.lemma_targets_ok(u, t);
        let w = self.width as int;
        let h = self.height as int;
        let v = self.spec_dest(u, t)->Some_0.target as int;
        assert(self.route_ok(v));
        let urow = self.cell_row(n_cell(u));
        let ucol = self.cell_col(n_cell(u));
        match t {
            Turn::Forward => {
                assert(self.fwd_exists(u));
                assert(v == self.fwd_target(u));
                lemma_rc_to_ci(w, h, self.fwd_row(u), self.fwd_col(u));
                lemma_ci_di_to_id(self.num_cells(), self.fwd_cell(u), n_dir(u));
                assert(n_cell(v) == self.fwd_cell(u) && n_dir(v) == n_dir(u));
                assert(self.node_dir(v) == self.node_dir(u));
                assert(self.cell_row(n_cell(v)) == self.fwd_row(u));
                assert(self.cell_col(n_cell(v)) == self.fwd_col(u));
                assert(self.back_row(v) == urow);
                assert(self.back_col(v) == ucol);
                lemma_rc_to_ci(w, h, urow, ucol);
                assert(self.back_cell(v) == n_cell(u));
                assert(self.back_in_bounds(v));
                assert(self.back_exists(v));
                assert(self.back_source(v) == n_cell(u) * 4 + n_dir(v));
                assert(self.back_source(v) == u);
            },
            Turn::Left => {
                assert(v == self.left_target(u));
                lemma_ci_di_to_id(
                    self.num_cells(),
                    n_cell(u),
                    spec_dir_index(self.node_dir(u).spec_counter_clockwise()),
                );
                assert(n_cell(v) == n_cell(u) && n_dir(v) == spec_dir_index(
                    self.node_dir(u).spec_counter_clockwise(),
                ));
                assert(self.node_dir(v) == self.node_dir(u).spec_counter_clockwise());
                // the left edge of u enters v; the matching
                // back-reference of v is its clockwise neighbour: u
                assert(self.node_dir(v).spec_clockwise() == self.node_dir(u));
                assert(self.right_target(v) == n_cell(u) * 4 + spec_dir_index(self.node_dir(u)));
                assert(self.right_target(v) == u);
                assert(self.spec_src(v, Turn::Left) is Some && self.spec_src(
                    v,
                    Turn::Left,
                )->Some_0 == self.right_target(v));
            },
            Turn::Right => {
                assert(v == self.right_target(u));
                lemma_ci_di_to_id(
                    self.num_cells(),
                    n_cell(u),
                    spec_dir_index(self.node_dir(u).spec_clockwise()),
                );
                assert(n_cell(v) == n_cell(u) && n_dir(v) == spec_dir_index(
                    self.node_dir(u).spec_clockwise(),
                ));
                assert(self.node_dir(v) == self.node_dir(u).spec_clockwise());
                assert(self.node_dir(v).spec_counter_clockwise() == self.node_dir(u));
                assert(self.left_target(v) == n_cell(u) * 4 + spec_dir_index(self.node_dir(u)));
                assert(self.left_target(v) == u);
                assert(self.spec_src(v, Turn::Right) is Some && self.spec_src(
                    v,
                    Turn::Right,
                )->Some_0 == self.left_target(v));
            },
        }
    }
}


impl MazeGraph {
    /// Offers one edge of the just-settled node `node_pos` to its
    /// target and re-establishes every relaxation invariant: settled
    /// costs stay put, the queue stays synced and above the settled
    /// costs, a lowered target is achieved exactly through its
    /// settled predecessor, and afterwards the offered edge can no
    /// longer improve its target.
    #[verifier::rlimit(100)]
    #[verifier::spinoff_prover]
    fn relax_edge(&mut self, node_pos: usize, turn: Turn, prio: i64, start: XY, bound: Ghost<int>)
        requires
            old(self).wf(),
            old(self).queue_ok(),
            old(self).valid_node(node_pos as int),
            old(self).floor_node(node_pos as int),
            old(self).settled(node_pos as int),
            old(self).weight(node_pos as int) == prio,
            0 <= prio,
            prio + 1000 <= bound@,
            bound@ <= old(self).weight_cap(),
            forall|id: int|
                old(self).valid_node(id) ==> #[trigger] old(self).weight(id) == INFINITE_COST
                    || (0 <= old(self).weight(id) <= bound@),
            forall|s: int|
                #[trigger] old(self).settled(s) ==> old(self).weight(s) < INFINITE_COST && old(
                self).weight(s) <= prio,
            old(self).settled_below_queue(),
            old(self).achievable_via_settled(start),
            old(self).settled_fixpoint_except(node_pos as int),
            old(self).weight(old(self).start_node(start)) == 0,
            old(self).valid_node(old(self).start_node(start)),
        ensures
            final(self).wf(),
            final(self).queue_ok(),
            final(self).width == old(self).width,
            final(self).height == old(self).height,
            final(self).cells == old(self).cells,
            final(self).routes.len() == old(self).routes.len(),
            pq_view(final(self).nodes).dom() == pq_view(old(self).nodes).dom(),
            forall|id2: int|
                old(self).valid_node(id2) ==> same_shape(
                    #[trigger] final(self).routes[id2], old(self).routes[id2]),
            forall|id: int|
                0 <= id < old(self).routes.len() ==> #[trigger] final(self).weight(id) <= old(
                self).weight(id),
            forall|id: int|
                final(self).valid_node(id) ==> #[trigger] final(self).weight(id)
                    == INFINITE_COST || (0 <= final(self).weight(id) <= bound@),
            forall|s: int|
                #[trigger] old(self).settled(s) ==> final(self).weight(s) == old(self).weight(s)
                    && final(self).weight(s) < INFINITE_COST,
            final(self).weight(node_pos as int) == prio,
            final(self).settled_below_queue(),
            final(self).achievable_via_settled(start),
            final(self).settled_fixpoint_except(node_pos as int),
            final(self).weight(final(self).start_node(start)) == 0,
            final(self).spec_dest(node_pos as int, turn) is Some ==> final(self).weight(
                final(self).spec_dest(node_pos as int, turn)->Some_0.target as int,
            ) <= prio + final(self).spec_dest(node_pos as int, turn)->Some_0.weight,
    {
        proof {
            self.lemma_targets_ok(node_pos as int, turn);
        }
        let updated = self.find_updates_via(node_pos, turn, prio);
        match updated {
            Some(update) => {
                self.apply_update(node_pos, turn, prio, start, bound, update);
            },
            None => {
                proof {
                    if self.spec_dest(node_pos as int, turn) is Some {
                        let wc = self.spec_dest(node_pos as int, turn)->Some_0;
                        assert(prio + wc.weight >= self.weight(wc.target as int));
                    }
                }
            },
        }
    }

    /// Applies one strict improvement found by `find_updates_via`.
    #[verifier::rlimit(100)]
    #[verifier::spinoff_prover]
    fn apply_update(
        &mut self,
        node_pos: usize,
        turn: Turn,
        prio: i64,
        start: XY,
        bound: Ghost<int>,
        update: (usize, i64),
    )
        requires
            old(self).wf(),
            old(self).queue_ok(),
            old(self).valid_node(node_pos as int),
            old(self).floor_node(node_pos as int),
            old(self).settled(node_pos as int),
            old(self).weight(node_pos as int) == prio,
            0 <= prio,
            prio + 1000 <= bound@,
            bound@ <= old(self).weight_cap(),
            forall|id: int|
                old(self).valid_node(id) ==> #[trigger] old(self).weight(id) == INFINITE_COST
                    || (0 <= old(self).weight(id) <= bound@),
            forall|s: int|
                #[trigger] old(self).settled(s) ==> old(self).weight(s) < INFINITE_COST && old(
                self).weight(s) <= prio,
            old(self).settled_below_queue(),
            old(self).achievable_via_settled(start),
            old(self).settled_fixpoint_except(node_pos as int),
            old(self).weight(old(self).start_node(start)) == 0,
            old(self).valid_node(old(self).start_node(start)),
            old(self).spec_dest(node_pos as int, turn) is Some,
            update.0 == old(self).spec_dest(node_pos as int, turn)->Some_0.target,
            update.1 == prio + old(self).spec_dest(node_pos as int, turn)->Some_0.weight,
            (update.1 as int) < old(self).weight(update.0 as int),
            old(self).valid_node(update.0 as int),
            old(self).floor_node(update.0 as int),
            prio < update.1 <= prio + TURN_COST,
        ensures
            final(self).wf(),
            final(self).queue_ok(),
            final(self).width == old(self).width,
            final(self).height == old(self).height,
            final(self).cells == old(self).cells,
            final(self).routes.len() == old(self).routes.len(),
            pq_view(final(self).nodes).dom() == pq_view(old(self).nodes).dom(),
            forall|id2: int|
                old(self).valid_node(id2) ==> same_shape(
                    #[trigger] final(self).routes[id2], old(self).routes[id2]),
            forall|id: int|
                0 <= id < old(self).routes.len() ==> #[trigger] final(self).weight(id) <= old(
                self).weight(id),
            forall|id: int|
                final(self).valid_node(id) ==> #[trigger] final(self).weight(id)
                    == INFINITE_COST || (0 <= final(self).weight(id) <= bound@),
            forall|s: int|
                #[trigger] old(self).settled(s) ==> final(self).weight(s) == old(self).weight(s)
                    && final(self).weight(s) < INFINITE_COST,
            final(self).weight(node_pos as int) == prio,
            final(self).settled_below_queue(),
            final(self).achievable_via_settled(start),
            final(self).settled_fixpoint_except(node_pos as int),
            final(self).weight(final(self).start_node(start)) == 0,
            final(self).weight(update.0 as int) <= update.1,
            final(self).spec_dest(node_pos as int, turn) == old(self).spec_dest(
                node_pos as int, turn),
    {
        proof {
            self.lemma_no_self_loop(node_pos as int, turn);
            self.lemma_dest_src_inverse(node_pos as int, turn);
        }
        let ghost pre = *self;
        let ghost target = update.0 as int;
        let ghost cand = update.1 as int;
        proof {
            // a settled target would already sit at or below the
            // settled cost `prio`, yet the offer is a strict
            // improvement: so the target is unsettled
            assert(cand < pre.weight(target));
            if pre.settled(target) {
                assert(pre.weight(target) < INFINITE_COST && pre.weight(target) <= prio);
                assert(false);
            }
            assert(pre.spec_dest(node_pos as int, turn)->Some_0.weight == turn_cost(turn));
        }
        self.reduce_node_weight(update.0, update.1);
        proof {
            assert(self.weight(target) == cand);
            assert(forall|id: int|
                pre.valid_node(id) && id != target ==> #[trigger] self.weight(id) == pre.weight(
                    id,
                ));
            assert(pq_view(self.nodes).dom() == pq_view(pre.nodes).dom());
            assert(self.weight(self.start_node(start)) == 0) by {
                if self.start_node(start) == target {
                    assert(pre.weight(target) == 0);
                    assert(cand >= 1);
                }
            }
            assert(target != pre.start_node(start)) by {
                if target == pre.start_node(start) {
                    assert(pre.weight(target) == 0);
                    assert(cand >= 1);
                }
            }
            MazeGraph::lemma_relax_step_settled(pre, *self, target, cand, prio as int);
            MazeGraph::lemma_relax_step_below_queue(pre, *self, target, cand, prio as int);
            MazeGraph::lemma_relax_step_achievable(
                pre,
                *self,
                node_pos as int,
                turn,
                target,
                cand,
                prio as int,
                start,
            );
            MazeGraph::lemma_relax_step_fixpoint(
                pre,
                *self,
                node_pos as int,
                target,
                cand,
                prio as int,
            );
        }
    }



    /// Common frame for one strict improvement of `target`: the
    /// settled set is unchanged and settled costs stay put, finite,
    /// and at or below the popped cost.
    proof fn lemma_relax_step_settled(
        pre: MazeGraph,
        post: MazeGraph,
        target: int,
        cand: int,
        prio: int,
    )
        requires
            pre.routes.len() == pre.node_count(),
            pq_view(post.nodes).dom() == pq_view(pre.nodes).dom(),
            post.routes.len() == pre.routes.len(),
            post.cells == pre.cells,
            post.width == pre.width,
            post.height == pre.height,
            0 <= target < pre.routes.len(),
            forall|id: int|
                0 <= id < pre.routes.len() && id != target ==> #[trigger] post.weight(id)
                    == pre.weight(id),
            !pre.settled(target),
            forall|s: int|
                #[trigger] pre.settled(s) ==> pre.weight(s) < INFINITE_COST && pre.weight(s)
                    <= prio,
        ensures
            forall|s: int| #[trigger] post.settled(s) <==> pre.settled(s),
            forall|s: int|
                #[trigger] post.settled(s) ==> post.weight(s) == pre.weight(s) && post.weight(s)
                    < INFINITE_COST && post.weight(s) <= prio,
    {
        assert forall|s: int| #[trigger] post.settled(s) <==> pre.settled(s) by {}
        assert forall|s: int|
            #[trigger] post.settled(s) implies post.weight(s) == pre.weight(s) && post.weight(s)
                < INFINITE_COST && post.weight(s) <= prio by {
            assert(s != target);
        }
    }

    /// The queue stays above every settled cost after the
    /// improvement: the target's fresh priority exceeds them all.
    #[verifier::spinoff_prover]
    proof fn lemma_relax_step_below_queue(
        pre: MazeGraph,
        post: MazeGraph,
        target: int,
        cand: int,
        prio: int,
    )
        requires
            pre.routes.len() == pre.node_count(),
            post.queue_ok(),
            pq_view(post.nodes).dom() == pq_view(pre.nodes).dom(),
            pre.queue_ok(),
            post.routes.len() == pre.routes.len(),
            post.cells == pre.cells,
            post.width == pre.width,
            post.height == pre.height,
            0 <= target < pre.routes.len(),
            forall|id: int|
                0 <= id < pre.routes.len() && id != target ==> #[trigger] post.weight(id)
                    == pre.weight(id),
            post.weight(target) == cand,
            cand > prio,
            !pre.settled(target),
            forall|s: int|
                #[trigger] pre.settled(s) ==> pre.weight(s) < INFINITE_COST && pre.weight(s)
                    <= prio,
            pre.settled_below_queue(),
        ensures
            post.settled_below_queue(),
    {
        reveal(MazeGraph::settled_below_queue);
        MazeGraph::lemma_relax_step_settled(pre, post, target, cand, prio);
        assert forall|s: int, k: usize|
            #![trigger post.settled(s), pq_view(post.nodes).contains_key(k)]
            post.settled(s) && post.weight(s) < INFINITE_COST && pq_view(
                post.nodes,
            ).contains_key(k) implies post.weight(s) <= pq_view(post.nodes)[k] by {
            assert(pre.settled(s) && pre.weight(s) == post.weight(s));
            assert(pq_view(post.nodes)[k] == post.weight(k as int));
            if (k as int) == target {
                assert(pre.weight(s) <= prio);
            } else {
                assert(post.weight(k as int) == pre.weight(k as int));
                assert(pq_view(pre.nodes).contains_key(k));
                assert(pq_view(pre.nodes)[k] == pre.weight(k as int));
            }
        }
    }

    /// The lowered target is achieved exactly through its settled
    /// predecessor; every other reached node keeps its witness.
    #[verifier::rlimit(100)]
    #[verifier::spinoff_prover]
    proof fn lemma_relax_step_achievable(
        pre: MazeGraph,
        post: MazeGraph,
        node_pos: int,
        turn: Turn,
        target: int,
        cand: int,
        prio: int,
        start: XY,
    )
        requires
            pre.routes.len() == pre.node_count(),
            pq_view(post.nodes).dom() == pq_view(pre.nodes).dom(),
            post.routes.len() == pre.routes.len(),
            post.cells == pre.cells,
            post.width == pre.width,
            post.height == pre.height,
            forall|id: int|
                0 <= id < pre.routes.len() ==> same_shape(
                    #[trigger] post.routes[id], pre.routes[id]),
            0 <= target < pre.routes.len(),
            forall|id: int|
                0 <= id < pre.routes.len() && id != target ==> #[trigger] post.weight(id)
                    == pre.weight(id),
            post.weight(target) == cand,
            cand == prio + turn_cost(turn),
            cand > prio,
            !pre.settled(target),
            pre.settled(node_pos),
            pre.weight(node_pos) == prio,
            forall|s: int|
                #[trigger] pre.settled(s) ==> pre.weight(s) < INFINITE_COST && pre.weight(s)
                    <= prio,
            pre.achievable_via_settled(start),
            pre.spec_src(target, turn) is Some,
            pre.spec_src(target, turn)->Some_0 == node_pos,
            target != pre.start_node(start),
        ensures
            post.achievable_via_settled(start),
    {
        reveal(MazeGraph::achievable_via_settled);
        MazeGraph::lemma_relax_step_settled(pre, post, target, cand, prio);
        assert(post.start_node(start) == pre.start_node(start));
        assert forall|v: int|
            post.valid_node(v) && #[trigger] post.weight(v) < INFINITE_COST && v
                != post.start_node(start) implies exists|t: Turn|
            (#[trigger] post.spec_src(v, t)) is Some && post.settled(
                post.spec_src(v, t)->Some_0 as int,
            ) && post.weight(post.spec_src(v, t)->Some_0 as int) < INFINITE_COST && post.weight(
                post.spec_src(v, t)->Some_0 as int,
            ) + turn_cost(t) == post.weight(v) by {
            if v == target {
                assert(post.spec_src(v, turn) == pre.spec_src(v, turn));
                assert(post.spec_src(v, turn) is Some && post.spec_src(v, turn)->Some_0 as int
                    == node_pos);
                assert(post.settled(node_pos));
                assert(post.weight(node_pos) == prio);
                assert((#[trigger] post.spec_src(v, turn)) is Some && post.settled(
                    post.spec_src(v, turn)->Some_0 as int,
                ) && post.weight(post.spec_src(v, turn)->Some_0 as int) < INFINITE_COST
                    && post.weight(post.spec_src(v, turn)->Some_0 as int) + turn_cost(turn)
                    == post.weight(v));
            } else {
                assert(pre.weight(v) == post.weight(v) && pre.valid_node(v));
                let t = choose|t: Turn|
                    (#[trigger] pre.spec_src(v, t)) is Some && pre.settled(
                        pre.spec_src(v, t)->Some_0 as int,
                    ) && pre.weight(pre.spec_src(v, t)->Some_0 as int) < INFINITE_COST
                        && pre.weight(pre.spec_src(v, t)->Some_0 as int) + turn_cost(t)
                        == pre.weight(v);
                let src = pre.spec_src(v, t)->Some_0 as int;
                assert(post.spec_src(v, t) == pre.spec_src(v, t));
                assert(src != target);
                assert(post.weight(src) == pre.weight(src));
                assert(post.settled(src));
                assert((#[trigger] post.spec_src(v, t)) is Some && post.settled(
                    post.spec_src(v, t)->Some_0 as int,
                ) && post.weight(post.spec_src(v, t)->Some_0 as int) < INFINITE_COST
                    && post.weight(post.spec_src(v, t)->Some_0 as int) + turn_cost(t)
                    == post.weight(v));
            }
        }
    }

    /// No settled node other than the one being relaxed regained
    /// slack: settled costs are fixed and the one changed cost fell.
    #[verifier::spinoff_prover]
    proof fn lemma_relax_step_fixpoint(
        pre: MazeGraph,
        post: MazeGraph,
        node_pos: int,
        target: int,
        cand: int,
        prio: int,
    )
        requires
            pre.routes.len() == pre.node_count(),
            pre.wf(),
            pq_view(post.nodes).dom() == pq_view(pre.nodes).dom(),
            post.routes.len() == pre.routes.len(),
            post.cells == pre.cells,
            post.width == pre.width,
            post.height == pre.height,
            forall|id: int|
                0 <= id < pre.routes.len() ==> same_shape(
                    #[trigger] post.routes[id], pre.routes[id]),
            0 <= target < pre.routes.len(),
            forall|id: int|
                0 <= id < pre.routes.len() && id != target ==> #[trigger] post.weight(id)
                    == pre.weight(id),
            post.weight(target) == cand,
            cand < pre.weight(target),
            !pre.settled(target),
            forall|s: int|
                #[trigger] pre.settled(s) ==> pre.weight(s) < INFINITE_COST && pre.weight(s)
                    <= prio,
            pre.settled_fixpoint_except(node_pos),
        ensures
            post.settled_fixpoint_except(node_pos),
    {
        reveal(MazeGraph::settled_fixpoint_except);
        assert forall|s: int| #[trigger] post.settled(s) <==> pre.settled(s) by {}
        assert forall|u: int, t: Turn|
            post.settled(u) && u != node_pos && post.weight(u) < INFINITE_COST && (
            #[trigger] post.spec_dest(u, t)) is Some implies post.weight(
            post.spec_dest(u, t)->Some_0.target as int,
        ) <= post.weight(u) + post.spec_dest(u, t)->Some_0.weight by {
            assert(pre.settled(u));
            assert(u != target);
            assert(pre.weight(u) == post.weight(u));
            assert(pre.spec_dest(u, t) == post.spec_dest(u, t));
            let tg = post.spec_dest(u, t)->Some_0.target as int;
            pre.lemma_targets_ok(u, t);
            assert(pre.weight(tg) <= pre.weight(u) + pre.spec_dest(u, t)->Some_0.weight);
            if tg == target {
                assert(post.weight(tg) == cand < pre.weight(tg));
            } else {
                assert(post.weight(tg) == pre.weight(tg));
            }
        }
    }
}


impl MazeGraph {
    /// Two well-formed graphs over the same floor plan store exactly
    /// the same edges: well-formedness pins every edge to the
    /// geometry.
    pub proof fn lemma_edges_determined(g1: MazeGraph, g2: MazeGraph)
        requires
            g1.wf(),
            g2.wf(),
            g1.width == g2.width,
            g1.height == g2.height,
            forall|ci: int|
                0 <= ci < g1.cells.len() ==> (#[trigger] g1.cells[ci]).floor
                    == g2.cells[ci].floor,
        ensures
            forall|id: int, t: Turn|
                g1.valid_node(id) ==> #[trigger] g1.spec_dest(id, t) == g2.spec_dest(id, t),
    {
        assert(g1.num_cells() == g2.num_cells());
        assert forall|id: int, t: Turn|
            g1.valid_node(id) implies #[trigger] g1.spec_dest(id, t) == g2.spec_dest(id, t) by {
            assert(g1.route_ok(id));
            assert(g2.route_ok(id));
            g1.lemma_node_fields(id);
            assert(g2.floor_node(id) == g1.floor_node(id));
            assert(g2.node_dir(id) == g1.node_dir(id));
            assert(g2.fwd_row(id) == g1.fwd_row(id));
            assert(g2.fwd_col(id) == g1.fwd_col(id));
            assert(g2.fwd_cell(id) == g1.fwd_cell(id));
            assert(g2.fwd_in_bounds(id) == g1.fwd_in_bounds(id));
            if g1.fwd_in_bounds(id) {
                lemma_rc_to_ci(g1.width as int, g1.height as int, g1.fwd_row(id), g1.fwd_col(id));
                assert(g2.cells[g1.fwd_cell(id)].floor == g1.cells[g1.fwd_cell(id)].floor);
            }
            assert(g2.fwd_exists(id) == g1.fwd_exists(id));
            assert(g2.fwd_target(id) == g1.fwd_target(id));
            assert(g2.left_target(id) == g1.left_target(id));
            assert(g2.right_target(id) == g1.right_target(id));
        }
    }

    /// Walks and their costs carry over between graphs that store the
    /// same edges.
    pub proof fn lemma_path_transfer(g1: MazeGraph, g2: MazeGraph, p: Seq<int>)
        requires
            g1.routes.len() == g2.routes.len(),
            g1.num_cells() == g2.num_cells(),
            forall|id: int, t: Turn|
                g1.valid_node(id) ==> #[trigger] g1.spec_dest(id, t) == g2.spec_dest(id, t),
            g1.is_path(p),
        ensures
            g2.is_path(p),
            g2.path_cost(p) == g1.path_cost(p),
        decreases p.len(),
    {
        assert forall|i: int| 0 <= i < p.len() - 1 implies #[trigger] g2.edge_to(
            p[i],
            p[i + 1],
        ) by {
            assert(g1.edge_to(p[i], p[i + 1]));
            let t = choose|t: Turn|
                (#[trigger] g1.spec_dest(p[i], t)) is Some && g1.spec_dest(p[i], t)->Some_0.target
                    == p[i + 1];
            assert(g1.valid_node(p[i]));
            assert(g2.spec_dest(p[i], t) == g1.spec_dest(p[i], t));
            assert((#[trigger] g2.spec_dest(p[i], t)) is Some && g2.spec_dest(
                p[i],
                t,
            )->Some_0.target == p[i + 1]);
        }
        assert(g2.is_path(p));
        if p.len() > 1 {
            let pre = p.drop_last();
            assert forall|i: int| 0 <= i < pre.len() - 1 implies #[trigger] g1.edge_to(
                pre[i],
                pre[i + 1],
            ) by {
                assert(pre[i] == p[i] && pre[i + 1] == p[i + 1]);
                assert(g1.edge_to(p[i], p[i + 1]));
            }
            assert(g1.is_path(pre));
            MazeGraph::lemma_path_transfer(g1, g2, pre);
            let a = p[p.len() - 2];
            let b = p[p.len() - 1];
            assert(g1.valid_node(a));
            assert(g2.edge_cost(a, b) == g1.edge_cost(a, b)) by {
                assert(g2.spec_dest(a, Turn::Forward) == g1.spec_dest(a, Turn::Forward));
            }
            assert(g1.path_cost(p) == g1.path_cost(pre) + g1.edge_cost(a, b));
            assert(g2.path_cost(p) == g2.path_cost(pre) + g2.edge_cost(a, b));
        }
    }

    /// The cheapest arrival at a cell is reachable in one checked
    /// graph exactly when it is in any other checked graph over the
    /// same floor plan: both record the true shortest distances.
    pub proof fn lemma_reachability_determined(
        g1: MazeGraph,
        g2: MazeGraph,
        start: XY,
        eci: int,
    )
        requires
            g1.wf(),
            g2.wf(),
            g1.width == g2.width,
            g1.height == g2.height,
            forall|ci: int|
                0 <= ci < g1.cells.len() ==> (#[trigger] g1.cells[ci]).floor
                    == g2.cells[ci].floor,
            g1.costs_good(start),
            g2.costs_good(start),
            0 <= eci < g1.num_cells(),
            g2.cell_best_weight(eci) < INFINITE_COST,
        ensures
            g1.cell_best_weight(eci) < INFINITE_COST,
    {
        MazeGraph::lemma_edges_determined(g2, g1);
        // an arrival the second graph reached
        lemma_ci_di_to_id(g2.num_cells(), eci, 0);
        lemma_ci_di_to_id(g2.num_cells(), eci, 1);
        lemma_ci_di_to_id(g2.num_cells(), eci, 2);
        lemma_ci_di_to_id(g2.num_cells(), eci, 3);
        let best = g2.cell_best_weight(eci);
        let b: int = if g2.weight(eci * 4 + 0) == best {
            eci * 4 + 0
        } else if g2.weight(eci * 4 + 1) == best {
            eci * 4 + 1
        } else if g2.weight(eci * 4 + 2) == best {
            eci * 4 + 2
        } else {
            eci * 4 + 3
        };
        assert(g2.weight(b) == best && n_cell(b) == eci && g2.valid_node(b));
        g2.lemma_costs_achieved(start, b);
        let p = choose|p: Seq<int>|
            {
                &&& #[trigger] g2.is_path(p)
                &&& p.first() == g2.start_node(start)
                &&& p.last() == b
                &&& g2.path_cost(p) == g2.weight(b)
            };
        MazeGraph::lemma_path_transfer(g2, g1, p);
        assert(g1.start_node(start) == g2.start_node(start));
        g1.lemma_costs_lower_bound(start, p);
        assert(g1.weight(b) <= g1.path_cost(p));
        assert(g1.weight(b) < INFINITE_COST) by {
            assert(g1.path_cost(p) == best < INFINITE_COST);
        }
        assert(g1.cell_best_weight(eci) <= g1.weight(b));
    }
}


impl MazeGraph {
    /// Every walk's cost is some number of moves plus some number of
    /// turns: the graph has no other edge weights.
    pub proof fn lemma_path_cost_decomposes(self, p: Seq<int>)
        requires
            self.is_path(p),
        ensures
            exists|f: int, t: int|
                0 <= f && 0 <= t && #[trigger] path_split(f, t) == self.path_cost(p),
        decreases p.len(),
    {
        if p.len() <= 1 {
            assert(path_split(0, 0) == self.path_cost(p));
        } else {
            let pre = p.drop_last();
            assert forall|i: int| 0 <= i < pre.len() - 1 implies #[trigger] self.edge_to(
                pre[i],
                pre[i + 1],
            ) by {
                assert(pre[i] == p[i] && pre[i + 1] == p[i + 1]);
                assert(self.edge_to(p[i], p[i + 1]));
            }
            assert(self.is_path(pre));
            self.lemma_path_cost_decomposes(pre);
            let (f, t) = choose|f: int, t: int|
                0 <= f && 0 <= t && #[trigger] path_split(f, t) == self.path_cost(pre);
            let a = p[p.len() - 2];
            let b = p[p.len() - 1];
            assert(self.path_cost(p) == self.path_cost(pre) + self.edge_cost(a, b));
            if self.edge_cost(a, b) == MOVE_COST {
                assert(path_split(f + 1, t) == self.path_cost(p));
            } else {
                assert(self.edge_cost(a, b) == TURN_COST);
                assert(path_split(f, t + 1) == self.path_cost(p));
            }
        }
    }

    /// Under a checked relaxation outcome, every finite recorded cost
    /// is some number of moves plus some number of turns — the cost
    /// of the walk that achieves it.
    pub proof fn lemma_reached_cost_decomposes(self, start: XY, v: int)
        requires
            self.wf(),
            self.costs_good(start),
            self.valid_node(v),
            self.weight(v) < INFINITE_COST,
        ensures
            exists|f: int, t: int|
                0 <= f && 0 <= t && #[trigger] path_split(f, t) == self.weight(v),
    {
        self.lemma_costs_achieved(start, v);
        let p = choose|p: Seq<int>|
            {
                &&& #[trigger] self.is_path(p)
                &&& p.first() == self.start_node(start)
                &&& p.last() == v
                &&& self.path_cost(p) == self.weight(v)
            };
        self.lemma_path_cost_decomposes(p);
    }
}

/// The cost of `f` forward moves and `t` quarter turns.
pub open spec fn path_split(f: int, t: int) -> int {
    f * (MOVE_COST as int) + t * (TURN_COST as int)
}


impl MazeGraph {
    /// The recorded cost of the stored back-reference of `v` for the
    /// given kind of move, or the sentinel when there is none.
    #[verifier::opaque]
    pub open spec fn src_weight(self, v: int, t: Turn) -> int {
        if self.spec_src(v, t) is Some {
            self.weight(self.spec_src(v, t)->Some_0 as int)
        } else {
            INFINITE_COST as int
        }
    }

    /// The least recorded cost among the stored back-references of
    /// `v`.
    #[verifier::opaque]
    pub open spec fn min_src_weight(self, v: int) -> int {
        vstd::math::min(
            self.src_weight(v, Turn::Forward),
            vstd::math::min(self.src_weight(v, Turn::Left), self.src_weight(v, Turn::Right)),
        )
    }

    /// The back-reference the backward walk follows from `v`: the
    /// first of (forward, left, right) whose cost is least, or
    /// nothing when every back-reference is unreached or missing.
    #[verifier::opaque]
    pub open spec fn chosen_source(self, v: int) -> Option<int> {
        let m = self.min_src_weight(v);
        if m == INFINITE_COST {
            None
        } else if self.src_weight(v, Turn::Forward) == m {
            Some(self.spec_src(v, Turn::Forward)->Some_0 as int)
        } else if self.src_weight(v, Turn::Left) == m {
            Some(self.spec_src(v, Turn::Left)->Some_0 as int)
        } else {
            Some(self.spec_src(v, Turn::Right)->Some_0 as int)
        }
    }

    /// The arrival node the reconstruction starts from: the first of
    /// the cell's four route nodes, in direction-index order, whose
    /// recorded cost is least — or nothing when all four are
    /// unreached.
    #[verifier::opaque]
    pub open spec fn chosen_arrival(self, ci: int) -> Option<int> {
        let m = self.cell_best_weight(ci);
        if m == INFINITE_COST {
            None
        } else if self.weight(ci * 4 + 0) == m {
            Some(ci * 4 + 0)
        } else if self.weight(ci * 4 + 1) == m {
            Some(ci * 4 + 1)
        } else if self.weight(ci * 4 + 2) == m {
            Some(ci * 4 + 2)
        } else {
            Some(ci * 4 + 3)
        }
    }

    /// The backward walk the primary reconstruction takes: it begins
    /// at `first`, each link follows the chosen (least-cost)
    /// back-reference while the cell is not the start cell, and it
    /// ends on the start cell or where no back-reference is reached.
    #[verifier::opaque]
    pub open spec fn primary_walk(self, walk: Seq<int>, first: int, sci: int) -> bool {
        &&& walk.len() >= 1
        &&& walk[0] == first
        &&& forall|i: int|
            0 <= i < walk.len() ==> self.valid_node(#[trigger] walk[i]) && self.floor_node(
                walk[i])
        &&& forall|i: int|
            0 <= i < walk.len() - 1 ==> n_cell(#[trigger] walk[i]) != sci && self.chosen_source(
                walk[i]) == Some(walk[i + 1])
        &&& (n_cell(walk.last()) == sci || self.chosen_source(walk.last()) is None)
    }
}


impl MazeGraph {
    /// The walk's source choice is a function of the costs and edges
    /// alone, so it carries over to a graph that differs only in
    /// marks or queue.
    pub proof fn lemma_chosen_source_frame(a: MazeGraph, b: MazeGraph, v: int)
        requires
            a.routes.len() == b.routes.len(),
            forall|id: int, t: Turn|
                0 <= id < a.routes.len() ==> #[trigger] a.spec_src(id, t) == b.spec_src(id, t),
            forall|id: int|
                0 <= id < a.routes.len() ==> #[trigger] a.weight(id) == b.weight(id),
            0 <= v < a.routes.len(),
            forall|t: Turn|
                (#[trigger] a.spec_src(v, t)) is Some ==> 0 <= (a.spec_src(v, t)->Some_0 as int)
                    && (a.spec_src(v, t)->Some_0 as int) < a.routes.len(),
        ensures
            b.chosen_source(v) == a.chosen_source(v),
    {
        reveal(MazeGraph::src_weight);
        reveal(MazeGraph::min_src_weight);
        reveal(MazeGraph::chosen_source);
        assert(a.spec_src(v, Turn::Forward) == b.spec_src(v, Turn::Forward));
        assert(a.spec_src(v, Turn::Left) == b.spec_src(v, Turn::Left));
        assert(a.spec_src(v, Turn::Right) == b.spec_src(v, Turn::Right));
        assert(a.src_weight(v, Turn::Forward) == b.src_weight(v, Turn::Forward));
        assert(a.src_weight(v, Turn::Left) == b.src_weight(v, Turn::Left));
        assert(a.src_weight(v, Turn::Right) == b.src_weight(v, Turn::Right));
    }
}


impl MazeGraph {
    /// The exhaustive sweep accepts `s` as a predecessor of `v`
    /// exactly when a weight-consistent edge of `s` lands on `v` —
    /// and, when only a turn edge does, a further weight-consistent
    /// forward hop enters `s`, so a turn is only useful where it ends
    /// a genuine move from another cell.
    pub open spec fn accepted_predecessor(self, s: int, v: int) -> bool {
        &&& self.weight(s) < INFINITE_COST
        &&& (self.consistent_step(s, v, Turn::Forward) || ((self.consistent_step(
            s,
            v,
            Turn::Left,
        ) || self.consistent_step(s, v, Turn::Right)) && exists|u: int|
            #[trigger] self.consistent_step(u, s, Turn::Forward)))
    }
}

} // verus!
