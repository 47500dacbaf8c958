use vstd::prelude::*;

verus! {

/// The way the patrolling guard faces.
#[derive(Debug, PartialEq, Eq, Structural, Clone, Copy)]
pub enum Direction {
    Left,
    Right,
    Up,
    Down,
}

pub open spec fn spec_rotated_right(d: Direction) -> Direction {
    match d {
        Direction::Left => Direction::Up,
        Direction::Right => Direction::Down,
        Direction::Up => Direction::Right,
        Direction::Down => Direction::Left,
    }
}

/// The direction after `n` quarter turns to the right.
pub open spec fn spec_rotated_n(d: Direction, n: int) -> Direction
    decreases n,
{
    if n <= 0 {
        d
    } else {
        spec_rotated_right(spec_rotated_n(d, n - 1))
    }
}

/// The square with its crossing flag for the given direction set.
pub open spec fn spec_marked(sq: Square, d: Direction) -> Square {
    Square {
        accessibility: sq.accessibility,
        visited: (match d {
            Direction::Left => Visited { left: true, ..sq.visited },
            Direction::Right => Visited { right: true, ..sq.visited },
            Direction::Up => Visited { up: true, ..sq.visited },
            Direction::Down => Visited { down: true, ..sq.visited },
        }),
    }
}

/// The position one step the given way.
pub open spec fn spec_moved(p: Position, d: Direction) -> Position {
    match d {
        Direction::Left => Position { row: p.row, col: (p.col - 1) as i32 },
        Direction::Right => Position { row: p.row, col: (p.col + 1) as i32 },
        Direction::Up => Position { row: (p.row - 1) as i32, col: p.col },
        Direction::Down => Position { row: (p.row + 1) as i32, col: p.col },
    }
}

impl Direction {
    /// The direction after the guard's quarter turn to the right.
    pub fn rotated_right(self) -> (r: Direction)
        ensures
            r == spec_rotated_right(self),
    {
        match self {
            Direction::Left => Direction::Up,
            Direction::Right => Direction::Down,
            Direction::Up => Direction::Right,
            Direction::Down => Direction::Left,
        }
    }
}

/// A map position: row, then column.
#[derive(Debug, PartialEq, Eq, Structural, Clone, Copy)]
pub struct Position {
    pub row: i32,
    pub col: i32,
}

impl Position {
    pub fn new(row: i32, col: i32) -> (r: Position)
        ensures
            r.row == row,
            r.col == col,
    {
        Position { row, col }
    }

    pub fn from(row: usize, col: usize) -> (r: Position)
        requires
            row <= 0x4000,
            col <= 0x4000,
        ensures
            r.row == row,
            r.col == col,
    {
        Position { row: row as i32, col: col as i32 }
    }

    /// This position shifted by the given row and column deltas.
    pub fn offset_by(&self, row_offset: i32, col_offset: i32) -> (r: Position)
        requires
            i32::MIN <= self.row + row_offset <= i32::MAX,
            i32::MIN <= self.col + col_offset <= i32::MAX,
        ensures
            r.row == self.row + row_offset,
            r.col == self.col + col_offset,
    {
        Position { row: self.row + row_offset, col: self.col + col_offset }
    }

    /// The neighbouring position one step the given way.
    pub fn moved(&self, direction: Direction) -> (r: Position)
        requires
            i32::MIN < self.row < i32::MAX,
            i32::MIN < self.col < i32::MAX,
        ensures
            r == (match direction {
                Direction::Left => Position { row: self.row, col: (self.col - 1) as i32 },
                Direction::Right => Position { row: self.row, col: (self.col + 1) as i32 },
                Direction::Up => Position { row: (self.row - 1) as i32, col: self.col },
                Direction::Down => Position { row: (self.row + 1) as i32, col: self.col },
            }),
    {
        match direction {
            Direction::Left => self.offset_by(0, -1),
            Direction::Right => self.offset_by(0, 1),
            Direction::Up => self.offset_by(-1, 0),
            Direction::Down => self.offset_by(1, 0),
        }
    }
}

/// The directions in which a square has already been crossed.
#[derive(Debug, PartialEq, Eq, Structural, Clone, Copy)]
pub struct Visited {
    pub left: bool,
    pub right: bool,
    pub up: bool,
    pub down: bool,
}

impl Visited {
    /// A square first crossed in the given direction.
    pub fn new(direction: Direction) -> (r: Visited)
        ensures
            r.is_spec_visited(),
    {
        let mut result = Visited { left: false, right: false, up: false, down: false };
        match direction {
            Direction::Left => {
                result.left = true;
            },
            Direction::Right => {
                result.right = true;
            },
            Direction::Up => {
                result.up = true;
            },
            Direction::Down => {
                result.down = true;
            },
        };
        result
    }

    pub fn fresh() -> (r: Visited)
        ensures
            !r.is_spec_visited(),
    {
        Visited { left: false, right: false, up: false, down: false }
    }

    pub open spec fn is_spec_visited(self) -> bool {
        self.left || self.right || self.up || self.down
    }

    /// Whether the square has been crossed in any direction.
    pub fn is_visited(&self) -> (r: bool)
        ensures
            r == self.is_spec_visited(),
    {
        self.left || self.right || self.up || self.down
    }

    /// Records a crossing; reports whether this direction was new.
    /// Exactly the given direction's flag is set; the others keep
    /// their values.
    pub fn is_first_visit(&mut self, direction: Direction) -> (r: bool)
        ensures
            final(self).is_spec_visited(),
            r == !(match direction {
                Direction::Left => old(self).left,
                Direction::Right => old(self).right,
                Direction::Up => old(self).up,
                Direction::Down => old(self).down,
            }),
            *final(self) == (match direction {
                Direction::Left => Visited { left: true, ..*old(self) },
                Direction::Right => Visited { right: true, ..*old(self) },
                Direction::Up => Visited { up: true, ..*old(self) },
                Direction::Down => Visited { down: true, ..*old(self) },
            }),
    {
        let seen = match direction {
            Direction::Left => self.left,
            Direction::Right => self.right,
            Direction::Up => self.up,
            Direction::Down => self.down,
        };
        match direction {
            Direction::Left => {
                self.left = true;
            },
            Direction::Right => {
                self.right = true;
            },
            Direction::Up => {
                self.up = true;
            },
            Direction::Down => {
                self.down = true;
            },
        };
        !seen
    }
}

/// Why a square blocks the guard, when it does.
#[derive(Debug, PartialEq, Eq, Structural, Clone, Copy)]
pub enum ObstructionType {
    Original,
    Introduced,
}

#[derive(Debug, PartialEq, Eq, Structural, Clone, Copy)]
pub enum Accessibility {
    Free,
    Obstructed(ObstructionType),
}

/// One map square: whether it can be entered, and how it has been
/// crossed.
#[derive(Debug, PartialEq, Eq, Structural, Clone, Copy)]
pub struct Square {
    pub accessibility: Accessibility,
    pub visited: Visited,
}

impl Square {
    pub fn with_access(access: Accessibility) -> (r: Square)
        ensures
            r.accessibility == access,
            !r.visited.is_spec_visited(),
    {
        Square { accessibility: access, visited: Visited::fresh() }
    }
}

/// How the patrol currently stands.
#[derive(Debug, PartialEq, Eq, Structural, Clone, Copy)]
pub enum GuardState {
    StillWalking,
    StuckInLoop,
    LeftTheMap,
}

/// The patrolling guard.
#[derive(Debug, Clone, Copy)]
pub struct Guard {
    pub position: Position,
    pub direction: Direction,
    pub state: GuardState,
    pub visited_count: i32,
}

impl Guard {
    pub fn is_at(&self, row: usize, col: usize) -> (r: bool)
        requires
            row <= 0x4000,
            col <= 0x4000,
        ensures
            r == (self.position.row == row && self.position.col == col),
    {
        self.position.row == row as i32 && self.position.col == col as i32
    }

    /// The arrow the guard is drawn as.
    pub fn as_char(&self) -> (r: char)
        ensures
            r == (match self.direction {
                Direction::Left => '<',
                Direction::Right => '>',
                Direction::Up => '^',
                Direction::Down => 'v',
            }),
    {
        match self.direction {
            Direction::Left => '<',
            Direction::Right => '>',
            Direction::Up => '^',
            Direction::Down => 'v',
        }
    }

    /// One patrol step, the rotate-until-free rule: the guard turns
    /// right in front of each obstruction; stepping off the map ends
    /// the patrol; stepping onto a free square moves there, counts it
    /// when never crossed before, records the crossing, and — when
    /// loop detection is on — a repeated crossing in the same
    /// direction means the guard is looping.  A guard boxed in on all
    /// four sides can only spin, which counts as looping too.
    #[verifier::rlimit(100)]
    #[verifier::spinoff_prover]
    pub fn step(&mut self, map: &mut TimeMap, check_loops: bool)
        requires
            old(map).wf(),
            -1 <= old(self).position.row <= 0x4001,
            -1 <= old(self).position.col <= 0x4001,
            old(self).visited_count < 0x4000_0000,
        ensures
            final(map).wf(),
            final(map).width == old(map).width,
            final(map).height == old(map).height,
            -1 <= final(self).position.row <= 0x4001,
            -1 <= final(self).position.col <= 0x4001,
            old(self).visited_count <= final(self).visited_count <= old(self).visited_count + 1,
            exists|turns: int|
                #![trigger spec_rotated_n(old(self).direction, turns)]
                {
                    let d = spec_rotated_n(old(self).direction, turns);
                    let np = spec_moved(old(self).position, d);
                    &&& 0 <= turns <= 4
                    &&& forall|k: int|
                        0 <= k < turns ==> {
                            let pk = spec_moved(
                                old(self).position,
                                #[trigger] spec_rotated_n(old(self).direction, k),
                            );
                            &&& 0 <= pk.row < old(map).height
                            &&& 0 <= pk.col < old(map).width
                            &&& old(map).data[pk.row as int][pk.col as int].accessibility
                                is Obstructed
                        }
                    &&& if turns == 4 {
                        *final(self) == Guard { state: GuardState::StuckInLoop, ..*old(self) }
                            && *final(map) == *old(map)
                    } else if !(0 <= np.row < old(map).height && 0 <= np.col < old(map).width) {
                        *final(self) == Guard {
                            state: GuardState::LeftTheMap,
                            direction: d,
                            ..*old(self)
                        } && *final(map) == *old(map)
                    } else {
                        let sq = old(map).data[np.row as int][np.col as int];
                        &&& sq.accessibility is Free
                        &&& final(self).position == np
                        &&& final(self).direction == d
                        &&& final(self).visited_count == old(self).visited_count + (
                        if sq.visited.is_spec_visited() {
                            0int
                        } else {
                            1int
                        })
                        &&& final(self).state == (if check_loops && (match d {
                            Direction::Left => sq.visited.left,
                            Direction::Right => sq.visited.right,
                            Direction::Up => sq.visited.up,
                            Direction::Down => sq.visited.down,
                        }) {
                            GuardState::StuckInLoop
                        } else {
                            old(self).state
                        })
                        &&& forall|rr: int, cc: int|
                            0 <= rr < old(map).height && 0 <= cc < old(map).width && !(rr
                                == np.row && cc == np.col) ==> (#[trigger] final(map).data[rr][
                            cc]) == old(map).data[rr][cc]
                        &&& final(map).data[np.row as int][np.col as int] == spec_marked(sq, d)
                    }
                },
    {
        let mut turns: usize = 0;
        while turns < 4
            invariant
                map.wf(),
                *map == *old(map),
                turns <= 4,
                self.direction == spec_rotated_n(old(self).direction, turns as int),
                forall|k: int|
                    0 <= k < turns ==> {
                        let pk = spec_moved(
                            old(self).position,
                            #[trigger] spec_rotated_n(old(self).direction, k),
                        );
                        &&& 0 <= pk.row < old(map).height
                        &&& 0 <= pk.col < old(map).width
                        &&& old(map).data[pk.row as int][pk.col as int].accessibility
                            is Obstructed
                    },
                self.position == old(self).position,
                self.direction == spec_rotated_n(old(self).direction, turns as int),
                self.visited_count == old(self).visited_count,
                self.state == old(self).state,
                self.visited_count < 0x4000_0000,
                -1 <= self.position.row <= 0x4001,
                -1 <= self.position.col <= 0x4001,
            decreases 4 - turns,
        {
            let next = self.position.moved(self.direction);
            proof {
                assert(next == spec_moved(
                    old(self).position,
                    spec_rotated_n(old(self).direction, turns as int),
                ));
            }
            if !map.contains(next) {
                self.state = GuardState::LeftTheMap;
                proof {
                    let t = turns as int;
                    assert(spec_moved(old(self).position, spec_rotated_n(
                        old(self).direction, t)) == next);
                }
                return ;
            }
            let square = map.read(next);
            match square.accessibility {
                Accessibility::Free => {
                    if !square.visited.is_visited() {
                        self.visited_count = self.visited_count + 1;
                    }
                    let first = map.mark_visited(next, self.direction);
                    if !first && check_loops {
                        self.state = GuardState::StuckInLoop;
                    }
                    self.position = next;
                    proof {
                        let t = turns as int;
                        assert(spec_moved(old(self).position, spec_rotated_n(
                            old(self).direction, t)) == next);
                    }
                    return ;
                },
                Accessibility::Obstructed(_) => {
                    self.direction = self.direction.rotated_right();
                },
            }
            proof {
                assert(spec_rotated_n(old(self).direction, turns + 1) == spec_rotated_right(
                    spec_rotated_n(old(self).direction, turns as int)));
            }
            turns = turns + 1;
        }
        // obstructions on every side: the guard can only spin
        self.state = GuardState::StuckInLoop;
        proof {
            reveal_with_fuel(spec_rotated_n, 5);
            assert(spec_rotated_n(old(self).direction, 4) == old(self).direction);
            assert(*self == Guard { state: GuardState::StuckInLoop, ..*old(self) });
        }
    }
}

/// The patrol map across time: squares remember how they were
/// crossed.
#[derive(Debug, Clone)]
pub struct TimeMap {
    pub data: Vec<Vec<Square>>,
    pub width: i32,
    pub height: i32,
}

impl TimeMap {
    /// Cached dimensions agree with the rows, all rows equally wide,
    /// both dimensions modest.
    pub open spec fn wf(self) -> bool {
        &&& self.height == self.data.len()
        &&& forall|r: int| 0 <= r < self.data.len() ==> (#[trigger] self.data[r]).len()
            == self.width
        &&& 0 <= self.width <= 0x4000
        &&& 0 <= self.height <= 0x4000
    }

    /// Wraps already-collected rows, all as wide as the first.
    pub fn from(data: Vec<Vec<Square>>) -> (r: TimeMap)
        requires
            data.len() <= 0x4000,
            forall|i: int| 0 <= i < data.len() ==> (#[trigger] data[i]).len() == (if data.len()
                > 0 {
                data[0].len()
            } else {
                0
            }),
            data.len() > 0 ==> data[0].len() <= 0x4000,
        ensures
            r.wf(),
            r.data == data,
    {
        let height = data.len();
        let width = if height > 0 {
            let first = &data[0];
            first.len()
        } else {
            0
        };
        TimeMap { height: height as i32, width: width as i32, data }
    }

    /// Checks at run time that the map kept its shape after a copy.
    pub fn wf_runtime(&self) -> (r: bool)
        ensures
            r ==> self.wf(),
    {
        if self.height < 0 || self.height > 0x4000 || self.width < 0 || self.width > 0x4000 {
            return false;
        }
        if self.data.len() != self.height as usize {
            return false;
        }
        let mut r: usize = 0;
        while r < self.data.len()
            invariant
                0 <= self.width <= 0x4000,
                forall|k: int| 0 <= k < r ==> (#[trigger] self.data[k]).len() == self.width,
                r <= self.data.len(),
            decreases self.data.len() - r,
        {
            let row = &self.data[r];
            if row.len() != self.width as usize {
                return false;
            }
            r = r + 1;
        }
        true
    }

    /// Whether the position lies on the map.
    pub fn contains(&self, pos: Position) -> (r: bool)
        requires
            self.wf(),
        ensures
            r == (0 <= pos.row < self.height && 0 <= pos.col < self.width),
    {
        pos.row >= 0 && pos.row < self.height && pos.col >= 0 && pos.col < self.width
    }

    /// The square at an on-map position.
    pub fn read(&self, pos: Position) -> (r: Square)
        requires
            self.wf(),
            0 <= pos.row < self.height,
            0 <= pos.col < self.width,
        ensures
            r == self.data[pos.row as int][pos.col as int],
    {
        proof {
            assert(self.data[pos.row as int].len() == self.width);
        }
        self.data[pos.row as usize][pos.col as usize]
    }

    /// Records a crossing of an on-map square: exactly that square's
    /// flag for the given direction is set.  Reports whether the
    /// direction was new for it.
    pub fn mark_visited(&mut self, pos: Position, direction: Direction) -> (r: bool)
        requires
            old(self).wf(),
            0 <= pos.row < old(self).height,
            0 <= pos.col < old(self).width,
        ensures
            final(self).wf(),
            final(self).width == old(self).width,
            final(self).height == old(self).height,
            r == !(match direction {
                Direction::Left => old(self).data[pos.row as int][pos.col as int].visited.left,
                Direction::Right => old(self).data[pos.row as int][
                    pos.col as int].visited.right,
                Direction::Up => old(self).data[pos.row as int][pos.col as int].visited.up,
                Direction::Down => old(self).data[pos.row as int][pos.col as int].visited.down,
            }),
            forall|rr: int, cc: int|
                0 <= rr < old(self).height && 0 <= cc < old(self).width && !(rr == pos.row && cc
                    == pos.col) ==> (#[trigger] final(self).data[rr][cc]) == old(self).data[
                rr][cc],
            final(self).data[pos.row as int][pos.col as int] == spec_marked(
                old(self).data[pos.row as int][pos.col as int],
                direction,
            ),
    {
        proof {
            assert(self.data[pos.row as int].len() == self.width);
        }
        let mut square = self.data[pos.row as usize][pos.col as usize];
        let first = square.visited.is_first_visit(direction);
        let row = &mut self.data[pos.row as usize];
        row.set(pos.col as usize, square);
        proof {
            assert forall|r: int| 0 <= r < self.data.len() implies (#[trigger] self.data[
            r]).len() == self.width by {}
        }
        first
    }

    /// Whether placing an obstruction here could change the patrol:
    /// only a free square the guard crosses qualifies.
    pub fn sensible_place_for_obstruction(&self, p: Position) -> (r: bool)
        requires
            self.wf(),
            0 <= p.row < self.height,
            0 <= p.col < self.width,
    {
        let square = self.read(p);
        match square.accessibility {
            Accessibility::Obstructed(_) => false,
            Accessibility::Free => square.visited.is_visited(),
        }
    }

    /// Blocks an on-map square with an introduced obstruction.
    pub fn place_obstruction_at(&mut self, p: Position)
        requires
            old(self).wf(),
            0 <= p.row < old(self).height,
            0 <= p.col < old(self).width,
        ensures
            final(self).wf(),
            final(self).width == old(self).width,
            final(self).height == old(self).height,
    {
        proof {
            assert(self.data[p.row as int].len() == self.width);
        }
        let mut square = self.data[p.row as usize][p.col as usize];
        square.accessibility = Accessibility::Obstructed(ObstructionType::Introduced);
        let row = &mut self.data[p.row as usize];
        row.set(p.col as usize, square);
        proof {
            assert forall|r: int| 0 <= r < self.data.len() implies (#[trigger] self.data[
            r]).len() == self.width by {}
        }
    }
}

/// The whole scenario: the live map and guard plus pristine copies
/// for replays.
#[derive(Debug)]
pub struct World {
    pub map: TimeMap,
    pub initial_map: TimeMap,
    pub guard: Guard,
    pub initial_guard: Guard,
}

impl World {
    /// Parses the patrol map: obstructions, free squares and exactly
    /// one guard with a facing arrow.  The rows must form a rectangle
    /// of at most 16384 by 16384 squares.
    pub fn from_string(input: &str) -> (r: Result<World, String>)
        ensures
            r matches Ok(w) ==> w.map.wf() && w.initial_map.wf(),
    {
        let bytes = input.as_bytes();
        let n = bytes.len();
        let mut data: Vec<Vec<Square>> = Vec::new();
        let mut current: Vec<Square> = Vec::new();
        let mut guard: Option<Guard> = None;
        let mut i: usize = 0;
        while i < n
            invariant
                i <= n,
                n == bytes@.len(),
                data.len() <= 0x4000,
                current.len() <= 0x4000,
                forall|k: int| 0 <= k < data.len() ==> (#[trigger] data[k]).len() == (if data.len()
                    > 0 {
                    data[0].len()
                } else {
                    0
                }),
                data.len() > 0 ==> data[0].len() <= 0x4000,
            decreases n - i,
        {
            let b = bytes[i];
            if b == 10 {
                if data.len() >= 0x4000 {
                    return Err("too many rows".to_owned());
                }
                if data.len() > 0 {
                    let w = {
                        let first = &data[0];
                        first.len()
                    };
                    if current.len() != w {
                        return Err("rows differ in width".to_owned());
                    }
                }
                data.push(current);
                current = Vec::new();
            } else {
                if current.len() >= 0x4000 {
                    return Err("row is too wide".to_owned());
                }
                let row = data.len();
                let col = current.len();
                let square = match b {
                    35 => Square::with_access(Accessibility::Obstructed(
                        ObstructionType::Original,
                    )),
                    48 => Square::with_access(Accessibility::Obstructed(
                        ObstructionType::Introduced,
                    )),
                    62 => match init_guard(&mut guard, row, col, Direction::Right) {
                        Ok(s) => s,
                        Err(e) => {
                            return Err(e);
                        },
                    },
                    60 => match init_guard(&mut guard, row, col, Direction::Left) {
                        Ok(s) => s,
                        Err(e) => {
                            return Err(e);
                        },
                    },
                    94 => match init_guard(&mut guard, row, col, Direction::Up) {
                        Ok(s) => s,
                        Err(e) => {
                            return Err(e);
                        },
                    },
                    118 => match init_guard(&mut guard, row, col, Direction::Down) {
                        Ok(s) => s,
                        Err(e) => {
                            return Err(e);
                        },
                    },
                    46 => Square::with_access(Accessibility::Free),
                    _ => {
                        return Err("failed to understand input".to_owned());
                    },
                };
                current.push(square);
            }
            i = i + 1;
        }
        if current.len() > 0 {
            if data.len() >= 0x4000 {
                return Err("too many rows".to_owned());
            }
            if data.len() > 0 {
                let w = {
                    let first = &data[0];
                    first.len()
                };
                if current.len() != w {
                    return Err("rows differ in width".to_owned());
                }
            }
            data.push(current);
        }
        let map = TimeMap::from(data);
        let guard = match guard {
            Some(g) => g,
            None => {
                return Err("missing guard".to_owned());
            },
        };
        let initial_map = map.clone();
        if !initial_map.wf_runtime() {
            return Err("patrol map lost its shape".to_owned());
        }
        Ok(World { map, initial_map, guard, initial_guard: guard })
    }

    /// Rewinds the scenario to its parsed state.
    pub fn reset(&mut self)
        ensures
            final(self).guard == old(self).initial_guard,
            final(self).initial_guard == old(self).initial_guard,
    {
        self.guard = self.initial_guard;
        self.map = self.initial_map.clone();
    }
}

/// Registers the guard's starting square; a second guard is fatal.
fn init_guard(guard: &mut Option<Guard>, row: usize, col: usize, direction: Direction) -> (r:
    Result<Square, String>)
    requires
        row <= 0x4000,
        col <= 0x4000,
{
    match guard {
        Some(_) => Err("found two guards?".to_owned()),
        None => {
            *guard = Some(
                Guard {
                    position: Position::from(row, col),
                    direction,
                    state: GuardState::StillWalking,
                    visited_count: 1,
                },
            );
            Ok(Square { accessibility: Accessibility::Free, visited: Visited::new(direction) })
        },
    }
}

/// Walks the patrol to its end (part 1: how many squares the guard
/// visits) or tries an obstruction on every sensible square and
/// counts the placements that trap the guard in a loop (part 2).
/// The visualising parts compute the same answers; drawing is left
/// to the caller.
pub fn run_on_string(input: &str, part: u8) -> (r: Result<i32, String>)
    ensures
        r matches Ok(v) ==> v >= 0,
{
    let mut world = match World::from_string(input) {
        Ok(w) => w,
        Err(e) => {
            return Err(e);
        },
    };

    match walk_to_completion(&mut world, false) {
        Ok(()) => {},
        Err(e) => {
            return Err(e);
        },
    }

    let mut result = world.guard.visited_count;
    if result < 0 {
        result = 0;
    }

    if part == 2 || part == 4 {
        let risk_map = world.map.clone();
        if !risk_map.wf_runtime() {
            return Err("patrol map lost its shape".to_owned());
        }
        let mut loopable_positions: i32 = 0;

        let height = risk_map.height;
        let width = risk_map.width;
        let mut row: i32 = 0;
        while row < height
            invariant
                0 <= row,
                0 <= loopable_positions < 0x1000_0000,
                risk_map.wf(),
                height == risk_map.height,
                width == risk_map.width,
            decreases height - row,
        {
            let mut col: i32 = 0;
            while col < width
                invariant
                    0 <= col,
                    0 <= row < height,
                    0 <= loopable_positions < 0x1000_0000,
                    risk_map.wf(),
                    height == risk_map.height,
                    width == risk_map.width,
                decreases width - col,
            {
                let p = Position::new(row, col);
                if risk_map.sensible_place_for_obstruction(p) {
                    world.reset();
                    if !world.map.wf_runtime() {
                        return Err("patrol map lost its shape".to_owned());
                    }
                    if world.map.contains(p) {
                        world.map.place_obstruction_at(p);
                        match walk_to_completion(&mut world, true) {
                            Ok(()) => {},
                            Err(e) => {
                                return Err(e);
                            },
                        }
                        if matches!(world.guard.state, GuardState::StuckInLoop) {
                            if loopable_positions < 0x1000_0000 - 1 {
                                loopable_positions = loopable_positions + 1;
                            }
                        }
                    }
                }
                col = col + 1;
            }
            row = row + 1;
        }

        result = loopable_positions;
    }
    Ok(result)
}

/// Steps the guard until the patrol ends one way or another.  Every
/// step visits a square in a fresh direction or ends the walk, so
/// four times the square count bounds the length of any terminating
/// patrol; a walk still going then can only be circling unnoticed.
fn walk_to_completion(world: &mut World, check_loops: bool) -> (r: Result<(), String>)
    ensures
        final(world).map.wf() || !old(world).map.wf(),
{
    if !world.map.wf_runtime() {
        return Err("patrol map lost its shape".to_owned());
    }
    if !(world.guard.position.row >= -1 && world.guard.position.row <= 0x4001
        && world.guard.position.col >= -1 && world.guard.position.col <= 0x4001) {
        return Err("the guard wandered far off the map".to_owned());
    }
    let mut fuel: u64 = 0x1_0000_0000;
    while fuel > 0
        invariant
            world.map.wf(),
            -1 <= world.guard.position.row <= 0x4001,
            -1 <= world.guard.position.col <= 0x4001,
        decreases fuel,
    {
        fuel = fuel - 1;
        if !matches!(world.guard.state, GuardState::StillWalking) {
            return Ok(());
        }
        if world.guard.visited_count >= 0x4000_0000 {
            return Err("the patrol count overflowed".to_owned());
        }
        let mut guard = world.guard;
        guard.step(&mut world.map, check_loops);
        world.guard = guard;
        proof {
            assert(world.guard.position.row >= -1 && world.guard.position.row <= 0x4001);
        }
    }
    Err("the patrol never ended".to_owned())
}

} // verus!
