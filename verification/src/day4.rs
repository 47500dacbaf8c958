use vstd::prelude::*;
use vstd::string::StringSliceAdditionalSpecFns;

verus! {

pub type Count = i32;

/// A position in the letter grid: column, then row.
#[derive(Debug, Clone, Copy, PartialEq, Eq, Structural)]
pub struct Point(pub i32, pub i32);

/// A step between positions: column delta, then row delta.
#[derive(Debug, Clone, Copy, PartialEq, Eq, Structural)]
pub struct Offset(pub i32, pub i32);

/// The letter grid being searched.
#[derive(Debug)]
pub struct Source {
    pub rows: Vec<Vec<char>>,
    pub width: usize,
    pub height: usize,
}

impl Point {
    /// This position moved by an offset.
    pub fn plus(self, other: Offset) -> (r: Point)
        requires
            i32::MIN <= self.0 + other.0 <= i32::MAX,
            i32::MIN <= self.1 + other.1 <= i32::MAX,
        ensures
            r.0 == self.0 + other.0,
            r.1 == self.1 + other.1,
    {
        Point(self.0 + other.0, self.1 + other.1)
    }
}

impl Offset {
    /// This step reversed.
    pub fn neg(self) -> (r: Offset)
        requires
            self.0 > i32::MIN,
            self.1 > i32::MIN,
        ensures
            r.0 == -self.0,
            r.1 == -self.1,
    {
        Offset(-self.0, -self.1)
    }
}

impl Source {
    /// The cached dimensions agree with the rows, every row has the
    /// same width, and both dimensions stay modest.
    pub open spec fn wf(self) -> bool {
        &&& self.height == self.rows.len()
        &&& forall|i: int| 0 <= i < self.rows.len() ==> (#[trigger] self.rows[i]).len()
            == self.width
        &&& self.width <= 0x4000
        &&& self.height <= 0x4000
    }

    /// Wraps already-collected rows, all as wide as the first.
    pub fn new(input: Vec<Vec<char>>) -> (r: Source)
        requires
            input.len() <= 0x4000,
            forall|i: int| 0 <= i < input.len() ==> (#[trigger] input[i]).len() == (if input.len()
                > 0 {
                input[0].len()
            } else {
                0
            }),
            input.len() > 0 ==> input[0].len() <= 0x4000,
        ensures
            r.wf(),
            r.rows == input,
            r.height == input.len(),
    {
        let height = input.len();
        let width = if height > 0 {
            let first = &input[0];
            first.len()
        } else {
            0
        };
        Source { rows: input, width, height }
    }

    /// The letter at a position, when it exists.
    pub open spec fn spec_at(self, p: Point) -> Option<char> {
        if p.1 >= self.height || p.1 < 0 || p.0 >= self.width || p.0 < 0 {
            None
        } else {
            Some(self.rows[p.1 as int][p.0 as int])
        }
    }

    pub fn at(&self, p: Point) -> (r: Option<char>)
        requires
            self.wf(),
        ensures
            r == self.spec_at(p),
    {
        if p.1 >= self.height as i32 || p.1 < 0 || p.0 >= self.width as i32 || p.0 < 0 {
            None
        } else {
            Some(self.rows[p.1 as usize][p.0 as usize])
        }
    }

    /// Whether the given letter stands at the position.
    pub fn is(&self, p: Point, c: char) -> (r: bool)
        requires
            self.wf(),
        ensures
            r == (self.spec_at(p) == Some(c)),
    {
        match self.at(p) {
            Some(found) => found == c,
            None => false,
        }
    }
}

/// One when the three positions spell "MAS", zero otherwise.
pub open spec fn spec_is_xmas(source: Source, p2: Point, p3: Point, p4: Point) -> int {
    if source.spec_at(p2) == Some('M') && source.spec_at(p3) == Some('A') && source.spec_at(p4)
        == Some('S') {
        1
    } else {
        0
    }
}

pub fn is_xmas(source: &Source, p2: Point, p3: Point, p4: Point) -> (r: Count)
    requires
        source.wf(),
    ensures
        r == spec_is_xmas(*source, p2, p3, p4),
{
    if source.is(p2, 'M') && source.is(p3, 'A') && source.is(p4, 'S') {
        1
    } else {
        0
    }
}

/// How many of the two rays (forward and mirrored) from `p1` spell
/// out the rest of "XMAS".
pub open spec fn spec_count_xmas(source: Source, p1: Point, o2: Offset, o3: Offset, o4: Offset) -> int {
    spec_is_xmas(
        source,
        Point((p1.0 + o2.0) as i32, (p1.1 + o2.1) as i32),
        Point((p1.0 + o3.0) as i32, (p1.1 + o3.1) as i32),
        Point((p1.0 + o4.0) as i32, (p1.1 + o4.1) as i32),
    ) + spec_is_xmas(
        source,
        Point((p1.0 - o2.0) as i32, (p1.1 - o2.1) as i32),
        Point((p1.0 - o3.0) as i32, (p1.1 - o3.1) as i32),
        Point((p1.0 - o4.0) as i32, (p1.1 - o4.1) as i32),
    )
}

pub fn count_xmas(source: &Source, p1: Point, o2: Offset, o3: Offset, o4: Offset) -> (r: Count)
    requires
        source.wf(),
        -4 <= o2.0 <= 4 && -4 <= o2.1 <= 4,
        -4 <= o3.0 <= 4 && -4 <= o3.1 <= 4,
        -4 <= o4.0 <= 4 && -4 <= o4.1 <= 4,
        0 <= p1.0 <= 0x4000 && 0 <= p1.1 <= 0x4000,
    ensures
        r == spec_count_xmas(*source, p1, o2, o3, o4),
        0 <= r <= 2,
{
    is_xmas(source, p1.plus(o2), p1.plus(o3), p1.plus(o4)) + is_xmas(
        source,
        p1.plus(o2.neg()),
        p1.plus(o3.neg()),
        p1.plus(o4.neg()),
    )
}

/// How many of the eight directions from `p` complete "XMAS".
pub open spec fn spec_count_xmases(source: Source, p: Point) -> int {
    spec_count_xmas(source, p, Offset(1, 0), Offset(2, 0), Offset(3, 0)) + spec_count_xmas(
        source,
        p,
        Offset(0, 1),
        Offset(0, 2),
        Offset(0, 3),
    ) + spec_count_xmas(source, p, Offset(1, 1), Offset(2, 2), Offset(3, 3)) + spec_count_xmas(
        source,
        p,
        Offset(1, -1i32),
        Offset(2, -2i32),
        Offset(3, -3i32),
    )
}

pub fn count_xmases(source: &Source, p: Point) -> (r: Count)
    requires
        source.wf(),
        0 <= p.0 <= 0x4000 && 0 <= p.1 <= 0x4000,
    ensures
        r == spec_count_xmases(*source, p),
        0 <= r <= 8,
{
    count_xmas(source, p, Offset(1, 0), Offset(2, 0), Offset(3, 0)) + count_xmas(
        source,
        p,
        Offset(0, 1),
        Offset(0, 2),
        Offset(0, 3),
    ) + count_xmas(source, p, Offset(1, 1), Offset(2, 2), Offset(3, 3)) + count_xmas(
        source,
        p,
        Offset(1, -1),
        Offset(2, -2),
        Offset(3, -3),
    )
}

/// The grid is exactly what the text says: rows of letters of one
/// width separated by single newline bytes (with at most one trailing
/// newline), each letter the text's byte at its position.
pub open spec fn source_matches_text(src: Source, s: Seq<u8>) -> bool {
    let w = src.width as int;
    let h = src.height as int;
    &&& (h == 0 ==> s.len() == 0)
    &&& (h > 0 ==> (s.len() == h * (w + 1) - 1 || s.len() == h * (w + 1)))
    &&& forall|r: int, c: int|
        0 <= r < h && 0 <= c < w ==> src.rows[r][c] == (s[#[trigger] (r * (w + 1) + c)] as char)
    &&& forall|r: int|
        0 <= r < h && #[trigger] (r * (w + 1) + w) < s.len() ==> s[r * (w + 1) + w] == 10
}

/// The width of split rows: that of the first, or zero.
pub open spec fn rows_width(rows: Seq<Vec<char>>) -> int {
    if rows.len() > 0 {
        rows[0].len() as int
    } else {
        0
    }
}

/// The same text relation stated over bare rows, as the splitter
/// returns them, before they are wrapped in a grid.
pub open spec fn rows_match_text(rows: Seq<Vec<char>>, s: Seq<u8>) -> bool {
    &&& (rows.len() == 0 ==> s.len() == 0)
    &&& (rows.len() > 0 ==> (s.len() == rows.len() * (rows_width(rows) + 1) - 1 || s.len()
        == rows.len() * (rows_width(rows) + 1)))
    &&& forall|r: int, c: int|
        0 <= r < rows.len() && 0 <= c < rows_width(rows) ==> rows[r][c] == (s[#[trigger] (r * (
        rows_width(rows) + 1) + c)] as char)
    &&& forall|r: int|
        0 <= r < rows.len() && #[trigger] (r * (rows_width(rows) + 1) + rows_width(rows))
            < s.len() ==> s[r * (rows_width(rows) + 1) + rows_width(rows)] == 10
}

/// A grid wrapped around rows that match the text matches it too.
proof fn lemma_rows_text_transfer(rows: Seq<Vec<char>>, s: Seq<u8>, src: Source)
    requires
        rows_match_text(rows, s),
        src.rows@ == rows,
        src.height == rows.len(),
        rows.len() > 0 ==> src.width == rows[0].len(),
    ensures
        source_matches_text(src, s),
{
    let w = src.width as int;
    let h = src.height as int;
    if h > 0 {
        assert(rows_width(rows) == w);
        assert forall|r2: int, c: int| 0 <= r2 < h && 0 <= c < w implies src.rows[r2][c] == (s[
        #[trigger] (r2 * (w + 1) + c)] as char) by {
            assert(rows[r2][c] == (s[#[trigger] (r2 * (rows_width(rows) + 1) + c)] as char));
        }
        assert forall|r2: int| 0 <= r2 < h && #[trigger] (r2 * (w + 1) + w) < s.len() implies s[
        r2 * (w + 1) + w] == 10 by {
            assert(#[trigger] (r2 * (rows_width(rows) + 1) + rows_width(rows)) < s.len());
        }
    }
}

/// The "XMAS" rays counted over the first `n` cells in column-major
/// order: cell `k` is column `k / height`, row `k % height`.
pub open spec fn spec_xmas_upto(source: Source, n: int) -> int
    decreases n,
{
    if n <= 0 {
        0
    } else {
        let col = (n - 1) / (source.height as int);
        let row = (n - 1) % (source.height as int);
        spec_xmas_upto(source, n - 1) + (if source.rows[row][col] == 'X' {
            spec_count_xmases(source, Point(col as i32, row as i32))
        } else {
            0
        })
    }
}

/// Counts every spelling of "XMAS" in the grid, horizontally,
/// vertically and diagonally, forwards and backwards.  The text must
/// be a rectangle of rows.
pub fn part1(input: &str) -> (r: Result<Count, String>)
    ensures
        r matches Ok(v) ==> exists|source: Source|
            #[trigger] source.wf() && source_matches_text(source, input.spec_bytes()) && v
                == spec_xmas_upto(source, (source.width * source.height) as int),
{
    let rows = match collect_rows(input) {
        Ok(rs) => rs,
        Err(e) => {
            return Err(e);
        },
    };
    let ghost grows = rows@;
    let source = Source::new(rows);
    proof {
        assert((source.width as int) * (source.height as int) <= 0x1000_0000)
            by (nonlinear_arith)
            requires
                0 <= (source.width as int) <= 0x4000,
                0 <= (source.height as int) <= 0x4000,
        ;
    }
    if source.width * source.height > 0x0fff_ffff {
        return Err("grid is too large to count".to_owned());
    }

    let mut count: Count = 0;
    let height = source.height;
    let width = source.width;
    let mut col: usize = 0;
    proof {
        assert(spec_xmas_upto(source, 0) == 0);
        assert(width * height <= 0x0fff_ffff);
    }
    let mut processed: usize = 0;
    while col < width
        invariant
            source.wf(),
            width == source.width,
            height == source.height,
            width * height <= 0x0fff_ffff,
            col <= width,
            processed == col * height,
            processed <= width * height,
            count == spec_xmas_upto(source, processed as int),
            0 <= count <= 8 * processed,
        decreases width - col,
    {
        proof {
            assert(col * height + height <= width * height) by (nonlinear_arith)
                requires col < width, 0 <= height,
            ;
        }
        let mut row: usize = 0;
        while row < height
            invariant
                source.wf(),
                width == source.width,
                height == source.height,
                width * height <= 0x0fff_ffff,
                col < width,
                row <= height,
                processed == col * height + row,
                col * height + height <= width * height,
                count == spec_xmas_upto(source, processed as int),
                0 <= count <= 8 * processed,
            decreases height - row,
        {
            proof {
                vstd::arithmetic::div_mod::lemma_fundamental_div_mod_converse(
                    processed as int, height as int, col as int, row as int);
            }
            let c = source.rows[row][col];
            if c == 'X' {
                let add = count_xmases(&source, Point(col as i32, row as i32));
                count = count + add;
            }
            row = row + 1;
            processed = processed + 1;
        }
        proof {
            assert((col + 1) * height == col * height + height) by (nonlinear_arith);
        }
        col = col + 1;
    }
    proof {
        assert(processed == width * height) by (nonlinear_arith)
            requires processed == col * height, col == width,
        ;
        let s = input.spec_bytes();
        if source.height > 0 {
            assert(source.rows[0].len() == source.width);
        }
        lemma_rows_text_transfer(grows, s, source);
        assert(source.wf() && source_matches_text(source, s) && count == spec_xmas_upto(
            source,
            (source.width * source.height) as int,
        ));
    }
    Ok(count)
}

/// Splits the text into rows of letters; the rows must form a
/// rectangle of at most 4096 by 4096 cells.
fn collect_rows(input: &str) -> (r: Result<Vec<Vec<char>>, String>)
    ensures
        r matches Ok(rows) ==> {
            &&& rows.len() <= 0x4000
            &&& forall|i: int| 0 <= i < rows.len() ==> (#[trigger] rows[i]).len() == (if rows.len()
                > 0 {
                rows[0].len()
            } else {
                0
            })
            &&& rows.len() > 0 ==> rows[0].len() <= 0x4000
            &&& rows_match_text(rows@, input.spec_bytes())
        },
{
    let bytes = input.as_bytes();
    let ghost s = input.spec_bytes();
    let n = bytes.len();
    let mut rows: Vec<Vec<char>> = Vec::new();
    let mut current: Vec<char> = Vec::new();
    let mut i: usize = 0;
    while i < n
        invariant
            i <= n,
            n == bytes@.len(),
            s == bytes@,
            rows.len() <= 0x4000,
            current.len() <= 0x4000,
            forall|k: int| 0 <= k < rows.len() ==> (#[trigger] rows[k]).len() == (if rows.len()
                > 0 {
                rows[0].len()
            } else {
                0
            }),
            rows.len() > 0 ==> rows[0].len() <= 0x4000,
            rows.len() == 0 ==> i == current.len(),
            rows.len() > 0 ==> i == rows.len() * (rows[0].len() + 1) + current.len(),
            forall|r2: int, c: int|
                0 <= r2 < rows.len() && 0 <= c < rows[0].len() ==> rows[r2][c] == (s[#[trigger] (
                r2 * (rows[0].len() + 1) + c)] as char),
            forall|r2: int|
                0 <= r2 < rows.len() ==> s[#[trigger] (r2 * (rows[0].len() + 1)
                    + rows[0].len())] == 10,
            forall|c: int|
                0 <= c < current.len() ==> current[c] == (s[i - current.len() + c] as char),
        decreases n - i,
    {
        let b = bytes[i];
        if b == 10 {
            if rows.len() >= 0x4000 {
                return Err("too many rows".to_owned());
            }
            if rows.len() > 0 {
                let w = {
                    let first = &rows[0];
                    first.len()
                };
                if current.len() != w {
                    return Err("rows differ in width".to_owned());
                }
            }
            let ghost prev_rows = rows@;
            let ghost wplus = (current.len() + 1) as int;
            rows.push(current);
            proof {
                if prev_rows.len() == 0 {
                    assert(rows[0].len() == i - 0);
                    assert(i + 1 == rows.len() * (rows[0].len() as int + 1))
                        by (nonlinear_arith)
                        requires rows.len() == 1, rows[0].len() == i,
                    ;
                } else {
                    assert((prev_rows.len() + 1) * (rows[0].len() as int + 1) == prev_rows.len()
                        * (rows[0].len() as int + 1) + (rows[0].len() as int + 1))
                        by (nonlinear_arith);
                }
                assert forall|r2: int, c: int|
                    0 <= r2 < rows.len() && 0 <= c < rows[0].len() implies rows[r2][c] == (s[
                #[trigger] (r2 * (rows[0].len() + 1) + c)] as char) by {
                    if r2 == rows.len() - 1 {
                        assert(rows[r2][c] == s[i - (rows[0].len() as int) + c] as char);
                    }
                }
                assert forall|r2: int|
                    0 <= r2 < rows.len() implies s[#[trigger] (r2 * (rows[0].len() + 1)
                        + rows[0].len())] == 10 by {
                    if r2 == rows.len() - 1 {
                        assert(s[i as int] == 10);
                    }
                }
            }
            current = Vec::new();
        } else {
            if current.len() >= 0x4000 {
                return Err("row is too wide".to_owned());
            }
            current.push(b as char);
        }
        i = i + 1;
    }
    if current.len() > 0 {
        if rows.len() >= 0x4000 {
            return Err("too many rows".to_owned());
        }
        if rows.len() > 0 {
            let w = {
                let first = &rows[0];
                first.len()
            };
            if current.len() != w {
                return Err("rows differ in width".to_owned());
            }
        }
        let ghost prev_rows = rows@;
        rows.push(current);
        proof {
            if prev_rows.len() == 0 {
                assert(rows[0].len() == n);
                assert(n == rows.len() * (rows[0].len() as int + 1) - 1)
                    by (nonlinear_arith)
                    requires rows.len() == 1, rows[0].len() == n,
                ;
            } else {
                assert((prev_rows.len() + 1) * (rows[0].len() as int + 1) == prev_rows.len() * (
                rows[0].len() as int + 1) + (rows[0].len() as int + 1)) by (nonlinear_arith);
                assert(n == rows.len() * (rows[0].len() as int + 1) - 1);
            }
            assert forall|r2: int, c: int|
                0 <= r2 < rows.len() && 0 <= c < rows[0].len() implies rows[r2][c] == (s[
            #[trigger] (r2 * (rows[0].len() + 1) + c)] as char) by {
                if r2 == rows.len() - 1 {
                    assert(rows[r2][c] == s[n - (rows[0].len() as int) + c] as char);
                }
            }
        }
    }
    Ok(rows)
}

} // verus!
