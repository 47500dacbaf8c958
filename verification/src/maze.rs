use vstd::prelude::*;
use vstd::string::StringSliceAdditionalSpecFns;
use vstd::arithmetic::div_mod::{lemma_fundamental_div_mod, lemma_fundamental_div_mod_converse};
use crate::grid::{Grid, GridRow};
use crate::xy::XY;

verus! {

/// What a maze cell is: solid wall or walkable floor.
#[derive(Debug, Clone, Copy, PartialEq, Eq, Structural)]
pub enum Kind {
    Wall,
    Floor,
}

/// A parsed maze: a rectangular grid of walls and floors plus the
/// start and end positions.
#[derive(Debug)]
pub struct Maze {
    pub map: Grid<Kind>,
    pub start: XY,
    pub end: XY,
}

pub const NEWLINE: u8 = 10;

pub const WALL_BYTE: u8 = 35;

pub const FLOOR_BYTE: u8 = 46;

pub const START_BYTE: u8 = 83;

pub const END_BYTE: u8 = 69;

/// The byte index of column `c` in row `r` when rows are `w` bytes
/// wide and joined by single newline bytes.
pub open spec fn cell_pos(w: int, r: int, c: int) -> int {
    r * (w + 1) + c
}

/// `s` is `h` rows of `w` bytes joined by newline bytes, with at most
/// one trailing newline, and newline bytes appear nowhere else.
pub open spec fn grid_shape(s: Seq<u8>, w: int, h: int) -> bool {
    &&& 1 <= w
    &&& 1 <= h
    &&& (s.len() == h * (w + 1) - 1 || s.len() == h * (w + 1))
    &&& forall|r: int|
        0 <= r < h && cell_pos(w, r, w) < s.len() ==> s[cell_pos(w, r, w)] == NEWLINE
    &&& forall|r: int, c: int| 0 <= r < h && 0 <= c < w ==> s[cell_pos(w, r, c)] != NEWLINE
}

/// The bytes a maze cell may hold: wall, floor, start or end marker.
pub open spec fn valid_cell_byte(b: u8) -> bool {
    b == WALL_BYTE || b == FLOOR_BYTE || b == START_BYTE || b == END_BYTE
}

/// Marker byte `b` appears in the cell at row `r`, column `c`, and in
/// no other cell.
pub open spec fn unique_marker(s: Seq<u8>, w: int, h: int, b: u8, r: int, c: int) -> bool {
    &&& 0 <= r < h && 0 <= c < w
    &&& s[cell_pos(w, r, c)] == b
    &&& forall|r2: int, c2: int|
        0 <= r2 < h && 0 <= c2 < w && s[cell_pos(w, r2, c2)] == b ==> r2 == r && c2 == c
}

/// The maze text is acceptable with width `w` and height `h`: shaped
/// as a rectangle, every cell byte legal, and exactly one start and
/// one end marker.
pub open spec fn maze_ok_wh(s: Seq<u8>, w: int, h: int) -> bool {
    &&& grid_shape(s, w, h)
    &&& forall|r: int, c: int|
        0 <= r < h && 0 <= c < w ==> valid_cell_byte(s[cell_pos(w, r, c)])
    &&& exists|r: int, c: int| unique_marker(s, w, h, START_BYTE, r, c)
    &&& exists|r: int, c: int| unique_marker(s, w, h, END_BYTE, r, c)
}

/// The maze text is acceptable for some width and height.
pub open spec fn maze_ok(s: Seq<u8>) -> bool {
    exists|w: int, h: int| maze_ok_wh(s, w, h)
}

/// Distinct cells of one grid sit at distinct byte positions.
proof fn lemma_cell_pos_injective(w: int, r1: int, c1: int, r2: int, c2: int)
    requires
        1 <= w,
        0 <= c1 < w,
        0 <= c2 < w,
        0 <= r1,
        0 <= r2,
        cell_pos(w, r1, c1) == cell_pos(w, r2, c2),
    ensures
        r1 == r2 && c1 == c2,
{
    assert(r1 == r2 && c1 == c2) by (nonlinear_arith)
        requires
            1 <= w,
            0 <= c1 < w,
            0 <= c2 < w,
            r1 * (w + 1) + c1 == r2 * (w + 1) + c2,
    ;
}

impl Maze {
    /// The cached dimensions are sound, the start and end positions
    /// are in bounds, and both sit on floor cells.
    pub open spec fn wf(self) -> bool {
        &&& self.map.wf()
        &&& 1 <= self.map.width
        &&& 1 <= self.map.height
        &&& self.map.width <= 0x7fff_ffff
        &&& self.map.height <= 0x7fff_ffff
        &&& 0 <= self.start.x < self.map.width
        &&& 0 <= self.start.y < self.map.height
        &&& 0 <= self.end.x < self.map.width
        &&& 0 <= self.end.y < self.map.height
        &&& self.map.cells[self.start.y as int][self.start.x as int] == Kind::Floor
        &&& self.map.cells[self.end.y as int][self.end.x as int] == Kind::Floor
    }

    /// The maze is exactly what the text says: same dimensions, walls
    /// where `#` stands, floor elsewhere, start at the unique `S` and
    /// end at the unique `E`.
    pub open spec fn matches_text(self, s: Seq<u8>) -> bool {
        let w = self.map.width as int;
        let h = self.map.height as int;
        &&& maze_ok_wh(s, w, h)
        &&& forall|r: int, c: int|
            0 <= r < h && 0 <= c < w ==> self.map.cells[r][c] == (if s[cell_pos(w, r, c)]
                == WALL_BYTE {
                Kind::Wall
            } else {
                Kind::Floor
            })
        &&& unique_marker(s, w, h, START_BYTE, self.start.y as int, self.start.x as int)
        &&& unique_marker(s, w, h, END_BYTE, self.end.y as int, self.end.x as int)
    }

    /// Parses a maze from its textual form.  Relies on nothing beyond
    /// the byte content of the text, and accepts exactly the texts
    /// `maze_ok` describes.
    pub fn new_from_string(input: &str) -> (r: Result<Maze, String>)
        ensures
            match r {
                Ok(m) => m.wf() && m.matches_text(input.spec_bytes()),
                Err(_) => !maze_ok(input.spec_bytes()) || input.spec_bytes().len()
                    >= 0x7fff_ffff,
            },
    {
        let bytes = input.as_bytes();
        parse_maze(bytes)
    }

    pub fn start(&self) -> (r: XY)
        ensures
            r == self.start,
    {
        self.start
    }

    pub fn end(&self) -> (r: XY)
        ensures
            r == self.end,
    {
        self.end
    }

    pub fn row_count(&self) -> (r: usize)
        requires
            self.wf(),
        ensures
            r == self.map.height,
    {
        self.map.row_count()
    }

    pub fn col_count(&self) -> (r: usize)
        requires
            self.wf(),
        ensures
            r == self.map.width,
    {
        self.map.col_count()
    }

    pub fn width(&self) -> (r: i64)
        ensures
            r == self.map.width,
    {
        self.map.width()
    }

    pub fn height(&self) -> (r: i64)
        ensures
            r == self.map.height,
    {
        self.map.height()
    }

    /// The kind of the cell at `pos`.
    pub fn at(&self, pos: XY) -> (r: &Kind)
        requires
            self.wf(),
            0 <= pos.x < self.map.width,
            0 <= pos.y < self.map.height,
        ensures
            *r == self.map.cells[pos.y as int][pos.x as int],
    {
        self.map.at_rc(pos.row(), pos.col())
    }
}

/// Finds the width: the index of the first newline byte, or the whole
/// length when none occurs.
fn find_width(bytes: &[u8]) -> (w: usize)
    ensures
        w <= bytes@.len(),
        forall|j: int| 0 <= j < w ==> bytes@[j] != NEWLINE,
        w < bytes@.len() ==> bytes@[w as int] == NEWLINE,
{
    let n = bytes.len();
    let mut i: usize = 0;
    while i < n && bytes[i] != NEWLINE
        invariant
            i <= n,
            n == bytes@.len(),
            forall|j: int| 0 <= j < i ==> bytes@[j] != NEWLINE,
        decreases n - i,
    {
        i = i + 1;
    }
    i
}

/// Any shape of this text has the width found by the newline scan.
proof fn lemma_forced_width(s: Seq<u8>, w: int)
    requires
        0 <= w <= s.len(),
        forall|j: int| 0 <= j < w ==> s[j] != NEWLINE,
        w < s.len() ==> s[w] == NEWLINE,
    ensures
        forall|w2: int, h2: int| grid_shape(s, w2, h2) ==> w2 == w,
{
    assert forall|w2: int, h2: int| grid_shape(s, w2, h2) implies w2 == w by {
        assert(h2 * (w2 + 1) >= 1 * (w2 + 1)) by (nonlinear_arith)
            requires 1 <= h2, 0 <= w2,
        ;
        assert(s.len() >= w2);
        if w2 < w {
            // the shape's own separator after row 0 would be an early newline
            assert(cell_pos(w2, 0, w2) == w2);
            assert(s[w2] == NEWLINE);
        } else if w2 > w {
            // the scan's newline at w sits inside the shape's row 0
            if w < s.len() {
                assert(cell_pos(w2, 0, w) == w);
                assert(s[w] != NEWLINE);
            } else {
                assert(s.len() >= w2 > w == s.len());
            }
        }
    }
}

/// Parses the raw bytes of a maze text.
fn parse_maze(bytes: &[u8]) -> (res: Result<Maze, String>)
    ensures
        match res {
            Ok(m) => m.wf() && m.matches_text(bytes@),
            Err(_) => !maze_ok(bytes@) || bytes@.len() >= 0x7fff_ffff,
        },
{
    let ghost s = bytes@;
    let n = bytes.len();
    let w = find_width(bytes);
    proof {
        lemma_forced_width(s, w as int);
    }

    if w == 0 {
        // an empty text, or one that starts with a newline
        assert(!maze_ok(s)) by {
            assert forall|w2: int, h2: int| !maze_ok_wh(s, w2, h2) by {
                if grid_shape(s, w2, h2) {
                    assert(w2 == 0);
                }
            }
        }
        return Err("maze text has no cells before its first line break".to_owned());
    }
    if w > 0x7fff_ffff {
        // the width cap keeps every later node index within range;
        // only texts of at least two gibibytes are turned away by it
        return Err("maze row is too wide".to_owned());
    }

    // determine the height from the length
    let h: usize;
    if w == n {
        // a single row without trailing newline
        h = 1;
        proof {
            assert(n == h * ((w as int) + 1) - 1);
        }
    } else {
        let sep = w + 1;
        let q = n / sep;
        let rem = n % sep;
        proof {
            lemma_fundamental_div_mod(n as int, sep as int);
        }
        proof {
            assert(q + 1 <= n) by (nonlinear_arith)
                requires
                    n == sep * q + rem,
                    sep >= 2,
                    rem >= 0,
                    q >= 0,
                    n >= 2,
            ;
        }
        if rem == w {
            h = q + 1;
            proof {
                assert(n == h * ((w as int) + 1) - 1) by (nonlinear_arith)
                    requires
                        n == sep * q + rem,
                        sep == w + 1,
                        rem == w,
                        h == q + 1,
                ;
            }
        } else if rem == 0 {
            h = q;
            proof {
                assert(n == h * ((w as int) + 1)) by (nonlinear_arith)
                    requires
                        n == sep * q + rem,
                        sep == w + 1,
                        rem == 0,
                        h == q,
                ;
                assert(h >= 1) by (nonlinear_arith)
                    requires
                        n == sep * q + rem,
                        rem == 0,
                        n >= 2,
                        q >= 0,
                        h == q,
                ;
            }
        } else {
            // no height fits this length
            assert(!maze_ok(s)) by {
                assert forall|w2: int, h2: int| !maze_ok_wh(s, w2, h2) by {
                    if grid_shape(s, w2, h2) {
                        assert(w2 == w);
                        if s.len() == h2 * (w2 + 1) - 1 {
                            assert(n as int == (h2 - 1) * (sep as int) + (w as int))
                                by (nonlinear_arith)
                                requires
                                    n == h2 * ((w as int) + 1) - 1,
                                    sep == w + 1,
                                    1 <= w,
                                    1 <= h2,
                            ;
                            lemma_fundamental_div_mod_converse(
                                n as int, sep as int, h2 - 1, w as int);
                        } else {
                            assert(n as int == h2 * (sep as int) + 0) by (nonlinear_arith)
                                requires
                                    n == h2 * ((w as int) + 1),
                                    sep == w + 1,
                            ;
                            lemma_fundamental_div_mod_converse(
                                n as int, sep as int, h2, 0);
                        }
                    }
                }
            }
            return Err("maze text is not a rectangle".to_owned());
        }
    }
    if h > 0x7fff_ffff {
        proof {
            assert(n >= 0x7fff_ffff) by (nonlinear_arith)
                requires
                    1 <= w,
                    h > 0x7fff_ffff,
                    (n == h * ((w as int) + 1) - 1 || n == h * ((w as int) + 1)),
            ;
        }
        return Err("maze has too many rows".to_owned());
    }

    proof {
        assert(1 <= h);
        assert(n == h * ((w as int) + 1) - 1 || n == h * ((w as int) + 1));
        assert(h * ((w as int) + 1) <= n + 1) by (nonlinear_arith)
            requires
                1 <= w,
                1 <= h,
                (n == h * ((w as int) + 1) - 1 || n == h * ((w as int) + 1)),
        ;
        // any shape witness of this text has exactly this height
        assert forall|w2: int, h2: int| grid_shape(s, w2, h2) implies h2 == h by {
            assert(w2 == w);
            if s.len() == h2 * (w2 + 1) - 1 {
                assert(h2 == h) by (nonlinear_arith)
                    requires
                        1 <= w,
                        1 <= h,
                        1 <= h2,
                        s.len() == h2 * (w + 1) - 1,
                        (s.len() == h * (w + 1) - 1 || s.len() == h * (w + 1)),
                ;
            } else {
                assert(h2 == h) by (nonlinear_arith)
                    requires
                        1 <= w,
                        1 <= h,
                        1 <= h2,
                        s.len() == h2 * (w + 1),
                        (s.len() == h * (w + 1) - 1 || s.len() == h * (w + 1)),
                ;
            }
        }
    }

    let mut rows: Vec<GridRow<Kind>> = Vec::new();
    let mut start_rc: Option<(usize, usize)> = None;
    let mut end_rc: Option<(usize, usize)> = None;

    let mut r: usize = 0;
    while r < h
        invariant
            s == bytes@,
            n == s.len(),
            1 <= w <= 0x7fff_ffff,
            1 <= h <= 0x7fff_ffff,
            (n == h * ((w as int) + 1) - 1 || n == h * ((w as int) + 1)),
            h * ((w as int) + 1) <= n + 1,
            r <= h,
            rows.len() == r,
            forall|i: int| 0 <= i < r ==> #[trigger] rows[i].len() == w,
            forall|i: int, c: int|
                0 <= i < r && 0 <= c < w ==> #[trigger] rows[i][c] == (if s[cell_pos(
                    w as int, i, c)] == WALL_BYTE {
                    Kind::Wall
                } else {
                    Kind::Floor
                }),
            forall|i: int, c: int|
                0 <= i < r && 0 <= c < w ==> valid_cell_byte(s[cell_pos(w as int, i, c)]),
            forall|i: int|
                0 <= i < r && cell_pos(w as int, i, w as int) < n ==> s[cell_pos(
                    w as int, i, w as int)] == NEWLINE,
            match start_rc {
                Some((sr, sc)) => {
                    &&& sr < r && sc < w
                    &&& s[cell_pos(w as int, sr as int, sc as int)] == START_BYTE
                    &&& forall|r2: int, c2: int|
                        0 <= r2 < r && 0 <= c2 < w && s[cell_pos(w as int, r2, c2)]
                            == START_BYTE ==> r2 == sr && c2 == sc
                },
                None => forall|r2: int, c2: int|
                    0 <= r2 < r && 0 <= c2 < w ==> s[cell_pos(w as int, r2, c2)] != START_BYTE,
            },
            match end_rc {
                Some((er, ec)) => {
                    &&& er < r && ec < w
                    &&& s[cell_pos(w as int, er as int, ec as int)] == END_BYTE
                    &&& forall|r2: int, c2: int|
                        0 <= r2 < r && 0 <= c2 < w && s[cell_pos(w as int, r2, c2)]
                            == END_BYTE ==> r2 == er && c2 == ec
                },
                None => forall|r2: int, c2: int|
                    0 <= r2 < r && 0 <= c2 < w ==> s[cell_pos(w as int, r2, c2)] != END_BYTE,
            },
            forall|w2: int, h2: int| grid_shape(s, w2, h2) ==> w2 == w && h2 == h,
        decreases h - r,
    {
        proof {
            assert((r as int) * ((w as int) + 1) + w < h * ((w as int) + 1)) by (nonlinear_arith)
                requires
                    r < h,
                    1 <= w,
            ;
        }
        let base = r * (w + 1);
        proof {
            assert(base + w < h * ((w as int) + 1));
            assert(base + w <= n);
        }
        let mut row: GridRow<Kind> = Vec::new();
        let mut c: usize = 0;
        while c < w
            invariant
                s == bytes@,
                n == s.len(),
                1 <= w <= 0x7fff_ffff,
                1 <= h <= 0x7fff_ffff,
                h * ((w as int) + 1) <= n + 1,
                r < h,
                base == r * (w + 1),
                base + w <= n,
                c <= w,
                row.len() == c,
                forall|j: int|
                    0 <= j < c ==> #[trigger] row[j] == (if s[cell_pos(w as int, r as int, j)]
                        == WALL_BYTE {
                        Kind::Wall
                    } else {
                        Kind::Floor
                    }),
                forall|j: int|
                    0 <= j < c ==> valid_cell_byte(s[cell_pos(w as int, r as int, j)]),
                match start_rc {
                    Some((sr, sc)) => {
                        &&& (sr < r || (sr == r && sc < c)) && sc < w
                        &&& s[cell_pos(w as int, sr as int, sc as int)] == START_BYTE
                        &&& forall|r2: int, c2: int|
                            0 <= r2 < h && 0 <= c2 < w && (r2 < r || (r2 == r && c2 < c))
                                && s[cell_pos(w as int, r2, c2)] == START_BYTE ==> r2 == sr
                                && c2 == sc
                    },
                    None => forall|r2: int, c2: int|
                        0 <= r2 < h && 0 <= c2 < w && (r2 < r || (r2 == r && c2 < c))
                            ==> s[cell_pos(w as int, r2, c2)] != START_BYTE,
                },
                match end_rc {
                    Some((er, ec)) => {
                        &&& (er < r || (er == r && ec < c)) && ec < w
                        &&& s[cell_pos(w as int, er as int, ec as int)] == END_BYTE
                        &&& forall|r2: int, c2: int|
                            0 <= r2 < h && 0 <= c2 < w && (r2 < r || (r2 == r && c2 < c))
                                && s[cell_pos(w as int, r2, c2)] == END_BYTE ==> r2 == er
                                && c2 == ec
                    },
                    None => forall|r2: int, c2: int|
                        0 <= r2 < h && 0 <= c2 < w && (r2 < r || (r2 == r && c2 < c))
                            ==> s[cell_pos(w as int, r2, c2)] != END_BYTE,
                },
                forall|w2: int, h2: int| grid_shape(s, w2, h2) ==> w2 == w && h2 == h,
            decreases w - c,
        {
            let b = bytes[base + c];
            proof {
                assert(base + c == cell_pos(w as int, r as int, c as int));
            }
            if b == WALL_BYTE {
                row.push(Kind::Wall);
            } else if b == FLOOR_BYTE {
                row.push(Kind::Floor);
            } else if b == START_BYTE {
                if start_rc.is_some() {
                    // a second start marker: no witness shape can
                    // satisfy the uniqueness the format asks for
                    proof {
                        let (sr, sc) = start_rc.unwrap();
                        assert forall|w2: int, h2: int| !maze_ok_wh(s, w2, h2) by {
                            if grid_shape(s, w2, h2) {
                                if exists|r3: int, c3: int|
                                    unique_marker(s, w2, h2, START_BYTE, r3, c3) {
                                    let (r3, c3) = choose|r3: int, c3: int|
                                        unique_marker(s, w2, h2, START_BYTE, r3, c3);
                                    assert(sr as int == r3 && sc as int == c3);
                                    assert(r as int == r3 && c as int == c3);
                                    lemma_cell_pos_injective(
                                        w as int, sr as int, sc as int, r as int, c as int);
                                }
                            }
                        }
                    }
                    return Err("maze has more than one starting position".to_owned());
                }
                start_rc = Some((r, c));
                row.push(Kind::Floor);
            } else if b == END_BYTE {
                if end_rc.is_some() {
                    proof {
                        let (er, ec) = end_rc.unwrap();
                        assert forall|w2: int, h2: int| !maze_ok_wh(s, w2, h2) by {
                            if grid_shape(s, w2, h2) {
                                if exists|r3: int, c3: int|
                                    unique_marker(s, w2, h2, END_BYTE, r3, c3) {
                                    let (r3, c3) = choose|r3: int, c3: int|
                                        unique_marker(s, w2, h2, END_BYTE, r3, c3);
                                    assert(er as int == r3 && ec as int == c3);
                                    assert(r as int == r3 && c as int == c3);
                                    lemma_cell_pos_injective(
                                        w as int, er as int, ec as int, r as int, c as int);
                                }
                            }
                        }
                    }
                    return Err("maze has more than one end position".to_owned());
                }
                end_rc = Some((r, c));
                row.push(Kind::Floor);
            } else {
                // a byte no maze cell may hold
                proof {
                    assert forall|w2: int, h2: int| !maze_ok_wh(s, w2, h2) by {
                        if grid_shape(s, w2, h2) {
                            assert(!valid_cell_byte(s[cell_pos(w as int, r as int, c as int)]));
                        }
                    }
                }
                return Err("unknown input".to_owned());
            }
            c = c + 1;
        }

        // the separator after this row, when the text still has one,
        // must be a newline
        if base + w < n {
            let b = bytes[base + w];
            if b != NEWLINE {
                proof {
                    assert forall|w2: int, h2: int| !maze_ok_wh(s, w2, h2) by {
                        if grid_shape(s, w2, h2) {
                            assert(s[cell_pos(w as int, r as int, w as int)] == NEWLINE);
                        }
                    }
                }
                return Err("maze text is not a rectangle".to_owned());
            }
        }
        rows.push(row);
        r = r + 1;
    }

    // the text now has the checked shape
    proof {
        assert(grid_shape(s, w as int, h as int));
    }

    let (start_r, start_c) = match start_rc {
        Some(p) => p,
        None => {
            proof {
                assert forall|w2: int, h2: int| !maze_ok_wh(s, w2, h2) by {
                    if grid_shape(s, w2, h2) {
                        assert(forall|r2: int, c2: int|
                            0 <= r2 < h && 0 <= c2 < w ==> s[cell_pos(w as int, r2, c2)]
                                != START_BYTE);
                    }
                }
            }
            return Err("should have a starting position".to_owned());
        },
    };
    let (end_r, end_c) = match end_rc {
        Some(p) => p,
        None => {
            proof {
                assert forall|w2: int, h2: int| !maze_ok_wh(s, w2, h2) by {
                    if grid_shape(s, w2, h2) {
                        assert(forall|r2: int, c2: int|
                            0 <= r2 < h && 0 <= c2 < w ==> s[cell_pos(w as int, r2, c2)]
                                != END_BYTE);
                    }
                }
            }
            return Err("should have an end position".to_owned());
        },
    };

    let map = Grid::from_cells(rows);
    let maze = Maze {
        map,
        start: XY::from_rc(start_r, start_c),
        end: XY::from_rc(end_r, end_c),
    };
    proof {
        let wi = w as int;
        let hi = h as int;
        assert(maze.map.width == w && maze.map.height == h);
        assert(unique_marker(s, wi, hi, START_BYTE, start_r as int, start_c as int));
        assert(unique_marker(s, wi, hi, END_BYTE, end_r as int, end_c as int));
        assert(maze_ok_wh(s, wi, hi));
        assert(s[cell_pos(wi, start_r as int, start_c as int)] == START_BYTE);
        assert(maze.map.cells[start_r as int][start_c as int] == Kind::Floor);
        assert(s[cell_pos(wi, end_r as int, end_c as int)] == END_BYTE);
        assert(maze.map.cells[end_r as int][end_c as int] == Kind::Floor);
        assert(maze.wf());
        assert(maze.matches_text(s));
    }
    Ok(maze)
}


/// Any two shapes of the same text agree on width and height.
proof fn lemma_shape_unique(s: Seq<u8>, w1: int, h1: int, w2: int, h2: int)
    requires
        grid_shape(s, w1, h1),
        grid_shape(s, w2, h2),
    ensures
        w1 == w2,
        h1 == h2,
{
    // widths agree: the first newline byte sits at the width, or the
    // text is a single row without newline
    if w1 != w2 {
        let (wa, wb) = if w1 < w2 { (w1, w2) } else { (w2, w1) };
        let (ha, hb) = if w1 < w2 { (h1, h2) } else { (h2, h1) };
        assert(s.len() >= ha * (wa + 1) - 1);
        assert(ha * (wa + 1) >= 1 * (wa + 1)) by (nonlinear_arith)
            requires 1 <= ha, 0 <= wa,
        ;
        assert(hb * (wb + 1) >= 1 * (wb + 1)) by (nonlinear_arith)
            requires 1 <= hb, 0 <= wb,
        ;
        if wa < s.len() {
            // shape a: the separator after row 0 is a newline
            assert(cell_pos(wa, 0, wa) == wa);
            assert(s[wa] == NEWLINE);
            // shape b: position wa is the cell in row 0, column wa < wb
            assert(cell_pos(wb, 0, wa) == wa);
            assert(s[wa] != NEWLINE);
        } else {
            // s.len() <= wa yet shape b needs at least wb > wa bytes
            assert(s.len() >= hb * (wb + 1) - 1 >= wb);
            assert(false);
        }
    }
    // heights agree: the two length forms cannot coincide for
    // different heights once the width is fixed
    if h1 != h2 {
        assert(false) by (nonlinear_arith)
            requires
                1 <= w1,
                1 <= h1,
                1 <= h2,
                h1 != h2,
                (s.len() == h1 * (w1 + 1) - 1 || s.len() == h1 * (w1 + 1)),
                (s.len() == h2 * (w1 + 1) - 1 || s.len() == h2 * (w1 + 1)),
        ;
    }
}

impl Maze {
    /// One text describes one maze: two mazes matching the same text
    /// agree on dimensions, cells, start and end.
    pub proof fn lemma_matches_text_unique(m1: Maze, m2: Maze, s: Seq<u8>)
        requires
            m1.wf(),
            m2.wf(),
            m1.matches_text(s),
            m2.matches_text(s),
        ensures
            m1.map.width == m2.map.width,
            m1.map.height == m2.map.height,
            m1.start == m2.start,
            m1.end == m2.end,
            forall|r: int, c: int|
                0 <= r < m1.map.height && 0 <= c < m1.map.width ==> m1.map.cells[r][c]
                    == #[trigger] m2.map.cells[r][c],
    {
        let w = m1.map.width as int;
        let h = m1.map.height as int;
        lemma_shape_unique(s, w, h, m2.map.width as int, m2.map.height as int);
        lemma_cell_pos_injective(
            w,
            m1.start.y as int,
            m1.start.x as int,
            m2.start.y as int,
            m2.start.x as int,
        );
        lemma_cell_pos_injective(
            w,
            m1.end.y as int,
            m1.end.x as int,
            m2.end.y as int,
            m2.end.x as int,
        );
        assert forall|r: int, c: int|
            0 <= r < m1.map.height && 0 <= c < m1.map.width implies m1.map.cells[r][c]
            == #[trigger] m2.map.cells[r][c] by {
            assert(m1.map.cells[r][c] == (if s[cell_pos(w, r, c)] == WALL_BYTE {
                Kind::Wall
            } else {
                Kind::Floor
            }));
            assert(m2.map.cells[r][c] == (if s[cell_pos(w, r, c)] == WALL_BYTE {
                Kind::Wall
            } else {
                Kind::Floor
            }));
        }
    }
}

} // verus!
