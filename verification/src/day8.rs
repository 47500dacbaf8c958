use vstd::prelude::*;

verus! {

/// A grid position: row, then column.
#[derive(Debug, PartialEq, Eq, Structural, Clone, Copy)]
pub struct Point {
    pub row: i32,
    pub col: i32,
}

impl Point {
    pub fn new(row: i32, col: i32) -> (r: Point)
        ensures
            r.row == row,
            r.col == col,
    {
        Point { row, col }
    }

    pub fn from(row: usize, col: usize) -> (r: Point)
        requires
            row <= 0x1000,
            col <= 0x1000,
        ensures
            r.row == row,
            r.col == col,
    {
        Point { row: row as i32, col: col as i32 }
    }

    /// This position moved by another taken as an offset.
    pub fn plus(self, rhs: Point) -> (r: Point)
        requires
            i32::MIN <= self.row + rhs.row <= i32::MAX,
            i32::MIN <= self.col + rhs.col <= i32::MAX,
        ensures
            r.row == self.row + rhs.row,
            r.col == self.col + rhs.col,
    {
        Point { row: self.row + rhs.row, col: self.col + rhs.col }
    }
}

/// The antenna map: for each frequency byte, where its antennas
/// stand.
#[derive(Debug)]
pub struct Grid {
    pub antennas: Vec<(u8, Vec<Point>)>,
    pub width: i32,
    pub height: i32,
}

impl Grid {
    /// Modest dimensions, and every antenna at a modest position.
    pub open spec fn wf(self) -> bool {
        &&& 0 <= self.width <= 0x1000
        &&& 0 <= self.height <= 0x1000
        &&& forall|i: int, k: int|
            0 <= i < self.antennas.len() && 0 <= k < self.antennas[i].1.len() ==> 0 <= (
            #[trigger] self.antennas[i].1[k]).row <= 0x1000 && 0 <= self.antennas[i].1[k].col
                <= 0x1000
    }

    /// Collects every antenna (any byte other than floor, mark or
    /// newline) by frequency; the rows must form a rectangle of at
    /// most 4096 by 4096 cells.
    pub fn new(input: &str) -> (r: Result<Grid, String>)
        ensures
            r matches Ok(g) ==> g.wf(),
    {
        let bytes = input.as_bytes();
        let n = bytes.len();
        let mut antennas: Vec<(u8, Vec<Point>)> = Vec::new();
        let mut row: usize = 0;
        let mut col: usize = 0;
        let mut width: usize = 0;
        let mut i: usize = 0;
        while i < n
            invariant
                i <= n,
                n == bytes@.len(),
                col <= 0x1000,
                row <= 0x1000,
                width <= 0x1000,
                forall|a: int, k: int|
                    0 <= a < antennas.len() && 0 <= k < antennas[a].1.len() ==> 0 <= (
                    #[trigger] antennas[a].1[k]).row <= 0x1000 && 0 <= antennas[a].1[k].col
                        <= 0x1000,
            decreases n - i,
        {
            let b = bytes[i];
            if b == 10 {
                if row == 0 {
                    width = col;
                } else if col != width {
                    return Err("rows differ in width".to_owned());
                }
                if row >= 0x1000 {
                    return Err("too many rows".to_owned());
                }
                row = row + 1;
                col = 0;
            } else {
                if col >= 0x1000 {
                    return Err("row is too wide".to_owned());
                }
                if b != 46 && b != 35 {
                    record_antenna(&mut antennas, b, Point::from(row, col));
                }
                col = col + 1;
            }
            i = i + 1;
        }
        let mut height = row;
        if col > 0 {
            if row == 0 {
                width = col;
            } else if col != width {
                return Err("rows differ in width".to_owned());
            }
            if height >= 0x1000 {
                return Err("too many rows".to_owned());
            }
            height = height + 1;
        }
        Ok(Grid { antennas, width: width as i32, height: height as i32 })
    }
}

/// Appends a sighting of the frequency, keeping one entry per
/// frequency byte.
fn record_antenna(antennas: &mut Vec<(u8, Vec<Point>)>, freq: u8, p: Point)
    requires
        0 <= p.row <= 0x1000,
        0 <= p.col <= 0x1000,
        forall|a: int, k: int|
            0 <= a < old(antennas).len() && 0 <= k < old(antennas)[a].1.len() ==> 0 <= (
            #[trigger] old(antennas)[a].1[k]).row <= 0x1000 && 0 <= old(antennas)[a].1[k].col
                <= 0x1000,
    ensures
        forall|a: int, k: int|
            0 <= a < final(antennas).len() && 0 <= k < final(antennas)[a].1.len() ==> 0 <= (
            #[trigger] final(antennas)[a].1[k]).row <= 0x1000 && 0 <= final(antennas)[a].1[
            k].col <= 0x1000,
{
    let n = antennas.len();
    let mut i: usize = 0;
    while i < n
        invariant
            i <= n,
            n == antennas.len(),
            0 <= p.row <= 0x1000,
            0 <= p.col <= 0x1000,
            forall|a: int, k: int|
                0 <= a < antennas.len() && 0 <= k < antennas[a].1.len() ==> 0 <= (
                #[trigger] antennas[a].1[k]).row <= 0x1000 && 0 <= antennas[a].1[k].col <= 0x1000,
        decreases n - i,
    {
        if antennas[i].0 == freq {
            let ghost before = antennas@;
            let mut pts: Vec<Point> = Vec::new();
            let mut k: usize = 0;
            let m = {
                let entry = &antennas[i];
                entry.1.len()
            };
            while k < m
                invariant
                    i < antennas.len(),
                    antennas@ == before,
                    k <= m,
                    m == antennas[i as int].1.len(),
                    pts@ == antennas[i as int].1@.subrange(0, k as int),
                decreases m - k,
            {
                let entry = &antennas[i];
                pts.push(entry.1[k]);
                k = k + 1;
            }
            proof {
                assert(pts@ =~= antennas[i as int].1@);
            }
            pts.push(p);
            antennas.set(i, (freq, pts));
            proof {
                assert forall|a: int, k2: int|
                    0 <= a < antennas.len() && 0 <= k2 < antennas[a].1.len() implies 0 <= (
                #[trigger] antennas[a].1[k2]).row <= 0x1000 && 0 <= antennas[a].1[k2].col
                    <= 0x1000 by {
                    if a != i {
                        assert(antennas[a] == before[a]);
                    } else {
                        if k2 < antennas[a].1.len() - 1 {
                            assert(antennas[a].1[k2] == before[a].1[k2]);
                        } else {
                            assert(antennas[a].1[k2] == p);
                        }
                    }
                }
            }
            return ;
        }
        i = i + 1;
    }
    let mut points: Vec<Point> = Vec::new();
    points.push(p);
    antennas.push((freq, points));
}

/// A position on the modest grid.
pub open spec fn modest(p: Point) -> bool {
    0 <= p.row <= 0x1000 && 0 <= p.col <= 0x1000
}

/// Every ordered pair of distinct antennas of one frequency; for the
/// resonant part, every ordered pair including an antenna with
/// itself.
pub fn generate_pairs(items: &Vec<Point>, part: u8) -> (r: Vec<(Point, Point)>)
    requires
        forall|t: int| 0 <= t < items.len() ==> modest(#[trigger] items[t]),
    ensures
        forall|k: int|
            0 <= k < r.len() ==> modest((#[trigger] r[k]).0) && modest(r[k].1),
{
    let mut result: Vec<(Point, Point)> = Vec::new();
    let n = items.len();
    let mut i: usize = 0;
    while i < n
        invariant
            i <= n,
            n == items.len(),
            forall|t: int| 0 <= t < items.len() ==> modest(#[trigger] items[t]),
            forall|k: int|
                0 <= k < result.len() ==> modest((#[trigger] result[k]).0) && modest(result[k].1),
        decreases n - i,
    {
        let mut j: usize = 0;
        while j < n
            invariant
                i < n,
                j <= n,
                n == items.len(),
                forall|t: int| 0 <= t < items.len() ==> modest(#[trigger] items[t]),
                forall|k: int|
                    0 <= k < result.len() ==> modest((#[trigger] result[k]).0) && modest(
                        result[k].1),
            decreases n - j,
        {
            let a = items[i];
            let b = items[j];
            if !(b.row == a.row && b.col == a.col) || part == 2 {
                result.push((a, b));
            }
            j = j + 1;
        }
        i = i + 1;
    }
    result
}

/// Counts the distinct in-bounds antinode positions: for each ordered
/// pair of same-frequency antennas, the positions reached by stepping
/// repeatedly from the first by the pair's separation (once for part
/// 1, as long as the map lasts otherwise).
pub fn run_on_string(input: &str, part: u8) -> (r: Result<i64, String>)
    ensures
        r matches Ok(v) ==> 0 <= v <= 0x1000000,
{
    let grid = match Grid::new(input) {
        Ok(g) => g,
        Err(e) => {
            return Err(e);
        },
    };
    let width = grid.width as usize;
    let height = grid.height as usize;
    proof {
        assert(width * height <= 0x1000000) by (nonlinear_arith)
            requires 0 <= width <= 0x1000, 0 <= height <= 0x1000,
        ;
    }
    let cells = width * height;
    let mut marks: Vec<bool> = Vec::new();
    while marks.len() < cells
        invariant
            cells <= 0x1000000,
            marks.len() <= cells,
        decreases cells - marks.len(),
    {
        marks.push(false);
    }

    let mut fi: usize = 0;
    let fn_count = grid.antennas.len();
    while fi < fn_count
        invariant
            grid.wf(),
            fn_count == grid.antennas.len(),
            fi <= fn_count,
            marks.len() == cells,
            cells == width * height,
            width == grid.width,
            height == grid.height,
            cells <= 0x1000000,
        decreases fn_count - fi,
    {
        let points = {
            let entry = &grid.antennas[fi];
            let mut copy: Vec<Point> = Vec::new();
            let mut k: usize = 0;
            while k < entry.1.len()
                invariant
                    grid.wf(),
                    fi < grid.antennas.len(),
                    entry == &grid.antennas[fi as int],
                    k <= entry.1.len(),
                    forall|t: int| 0 <= t < copy.len() ==> modest(#[trigger] copy[t]),
                decreases entry.1.len() - k,
            {
                copy.push(entry.1[k]);
                k = k + 1;
            }
            copy
        };
        let pairs = generate_pairs(&points, part);
        let mut pi: usize = 0;
        while pi < pairs.len()
            invariant
                pi <= pairs.len(),
                forall|k: int|
                    0 <= k < pairs.len() ==> modest((#[trigger] pairs[k]).0) && modest(
                        pairs[k].1),
                marks.len() == cells,
                cells == width * height,
                width == grid.width,
                height == grid.height,
                0 <= grid.width <= 0x1000,
                0 <= grid.height <= 0x1000,
                cells <= 0x1000000,
            decreases pairs.len() - pi,
        {
            let (first, second) = pairs[pi];
            let diff = Point::new(
                clamp_diff(first.row, second.row),
                clamp_diff(first.col, second.col),
            );
            let mut antinode = first;
            // each in-bounds step either leaves the map within its
            // span or repeats a zero offset, which stops at once
            let mut fuel: usize = 0x4000;
            while fuel > 0
                invariant
                    marks.len() == cells,
                    cells == width * height,
                    width == grid.width,
                    height == grid.height,
                    0 <= grid.width <= 0x1000,
                    0 <= grid.height <= 0x1000,
                    -0x8000 <= antinode.row <= 0x8000,
                    -0x8000 <= antinode.col <= 0x8000,
                    -0x2001 <= diff.row <= 0x2001,
                    -0x2001 <= diff.col <= 0x2001,
                decreases fuel,
            {
                fuel = fuel - 1;
                let next = antinode.plus(diff);
                antinode = Point::new(
                    clamp_coord(next.row),
                    clamp_coord(next.col),
                );
                if antinode.row >= 0 && (antinode.row as usize) < height && antinode.col >= 0 && (
                antinode.col as usize) < width {
                    proof {
                        assert((antinode.row as int) * (width as int) + (antinode.col as int)
                            < (height as int) * (width as int)) by (nonlinear_arith)
                            requires
                                0 <= (antinode.row as int) < (height as int),
                                0 <= (antinode.col as int) < (width as int),
                        ;
                        assert((height as int) * (width as int) == (width as int) * (
                        height as int)) by (nonlinear_arith);
                    }
                    let idx = (antinode.row as usize) * width + (antinode.col as usize);
                    marks.set(idx, true);
                    if part == 1 || (diff.row == 0 && diff.col == 0) {
                        break ;
                    }
                } else {
                    break ;
                }
            }
            pi = pi + 1;
        }
        fi = fi + 1;
    }

    let mut total: i64 = 0;
    let mut ci: usize = 0;
    while ci < cells
        invariant
            marks.len() == cells,
            cells <= 0x1000000,
            ci <= cells,
            0 <= total <= ci,
        decreases cells - ci,
    {
        if marks[ci] {
            total = total + 1;
        }
        ci = ci + 1;
    }
    Ok(total)
}

/// The difference of two coordinates, kept within one map span.
fn clamp_diff(a: i32, b: i32) -> (r: i32)
    requires
        -0x8000 <= a <= 0x8000,
        -0x8000 <= b <= 0x8000,
    ensures
        -0x2001 <= r <= 0x2001,
        (-0x1001 <= a - b <= 0x1001) ==> r == a - b,
{
    let d = a - b;
    if d > 0x1001 {
        0x2001
    } else if d < -0x1001 {
        -0x2001
    } else {
        d
    }
}

/// Keeps a wandering coordinate within a window just past the map, so
/// repeated stepping cannot overflow.
fn clamp_coord(v: i32) -> (r: i32)
    ensures
        -0x8000 <= r <= 0x8000,
        (-0x4000 <= v <= 0x4000) ==> r == v,
        (0 <= v <= 0x1000) ==> r == v,
{
    if v > 0x4000 {
        0x8000
    } else if v < -0x4000 {
        -0x8000
    } else {
        v
    }
}

} // verus!
