use vstd::prelude::*;

verus! {

/// The token cost of winning one claw machine, by Cramer's rule over
/// exact integers: when the two button vectors solve the prize
/// position in whole presses, three tokens per press of button A and
/// one per press of button B; otherwise the machine is unwinnable and
/// costs nothing.
/// The magnitude of an integer.
pub open spec fn mag(v: int) -> int {
    if v < 0 {
        -v
    } else {
        v
    }
}

/// The exact signed quotient of two integers by their magnitudes.
pub open spec fn signed_quot(a: int, d: int) -> int {
    if (a < 0) != (d < 0) {
        -(mag(a) / mag(d))
    } else {
        mag(a) / mag(d)
    }
}

pub open spec fn spec_machine_cost(
    ax: int,
    ay: int,
    bx: int,
    by: int,
    px: int,
    py: int,
) -> int {
    let det = by * ax - ay * bx;
    let anum = px * by - bx * py;
    let bnum = py * ax - px * ay;
    let qa = signed_quot(anum, det);
    let qb = signed_quot(bnum, det);
    if det != 0 && mag(anum) % mag(det) == 0 && mag(bnum) % mag(det) == 0
        && -0x4_0000_0000_0000 <= qa <= 0x4_0000_0000_0000 && -0x4_0000_0000_0000 <= qb
        <= 0x4_0000_0000_0000 {
        3 * qa + qb
    } else {
        0
    }
}

/// Solves one machine exactly.  Buttons are modest offsets and the
/// prize is at most a few tens of trillions away, so every product
/// stays well within the machine word.
pub fn solve_machine(ax: i64, ay: i64, bx: i64, by: i64, px: i64, py: i64) -> (r: i64)
    requires
        0 <= ax <= 100000,
        0 <= ay <= 100000,
        0 <= bx <= 100000,
        0 <= by <= 100000,
        0 <= px <= 0x4000_0000_0000,
        0 <= py <= 0x4000_0000_0000,
    ensures
        r == spec_machine_cost(ax as int, ay as int, bx as int, by as int, px as int, py as int),
        -0x10_0000_0000_0000 <= r <= 0x10_0000_0000_0000,
{
    proof {
        assert(by * ax <= 10_000_000_000 && ay * bx <= 10_000_000_000 && by * ax >= 0 && ay * bx
            >= 0) by (nonlinear_arith)
            requires
                0 <= ax <= 100000,
                0 <= ay <= 100000,
                0 <= bx <= 100000,
                0 <= by <= 100000,
        ;
        assert(0 <= px * by <= 7_500_000_000_000_000_000 && 0 <= bx * py
            <= 7_500_000_000_000_000_000 && 0 <= py * ax <= 7_500_000_000_000_000_000 && 0 <= px
            * ay <= 7_500_000_000_000_000_000) by (nonlinear_arith)
            requires
                0 <= ax <= 100000,
                0 <= ay <= 100000,
                0 <= bx <= 100000,
                0 <= by <= 100000,
                0 <= px <= 0x4000_0000_0000,
                0 <= py <= 0x4000_0000_0000,
        ;
    }
    let det = by * ax - ay * bx;
    let anum = px * by - bx * py;
    let bnum = py * ax - px * ay;
    if det == 0 {
        return 0;
    }
    let dabs = (if det < 0 {
        -det
    } else {
        det
    }) as u64;
    let aabs = (if anum < 0 {
        -anum
    } else {
        anum
    }) as u64;
    let babs = (if bnum < 0 {
        -bnum
    } else {
        bnum
    }) as u64;
    let ra = aabs % dabs;
    let rb = babs % dabs;
    let qam = aabs / dabs;
    let qbm = babs / dabs;
    let qa: i64 = if (anum < 0) != (det < 0) {
        -(qam as i64)
    } else {
        qam as i64
    };
    let qb: i64 = if (bnum < 0) != (det < 0) {
        -(qbm as i64)
    } else {
        qbm as i64
    };
    proof {
        assert(aabs / dabs <= aabs) by (nonlinear_arith)
            requires dabs >= 1, aabs >= 0,
        ;
        assert(babs / dabs <= babs) by (nonlinear_arith)
            requires dabs >= 1, babs >= 0,
        ;
    }
    if ra == 0 && rb == 0 && -0x4_0000_0000_0000 <= qa && qa <= 0x4_0000_0000_0000
        && -0x4_0000_0000_0000 <= qb && qb <= 0x4_0000_0000_0000 {
        3 * qa + qb
    } else {
        0
    }
}



/// Sums the winning cost over every machine in the input: each block
/// of text lists the two button offsets and the prize position in the
/// labelled form the machines print, and the second part shifts each
/// prize ten trillion units further.  A block that does not follow
/// the three labelled lines is an error.
pub fn run_on_string(input: &str, part: u8, is_benchmark: bool) -> (r: Result<i64, String>)
{
    let _ = is_benchmark;
    let prize_offset: i64 = if part == 1 {
        0
    } else {
        10_000_000_000_000
    };
    let bytes = input.as_bytes();
    let n = bytes.len();
    let mut total: i64 = 0;
    let mut line_in_block: u8 = 0;
    let mut ax: i64 = 0;
    let mut ay: i64 = 0;
    let mut bx: i64 = 0;
    let mut by: i64 = 0;
    let mut line_start: usize = 0;
    let mut i: usize = 0;
    while i <= n
        invariant
            line_start <= i,
            i <= n,
            n == bytes@.len(),
            0 <= prize_offset <= 10_000_000_000_000,
            0 <= ax <= 100000,
            0 <= ay <= 100000,
            0 <= bx <= 100000,
            0 <= by <= 100000,
        decreases n + 1 - i,
    {
        if i == n || bytes[i] == 10 {
            if line_start == i {
                // a blank line separates machines
                if line_in_block != 0 {
                    return Err("a machine stops short of its three lines".to_owned());
                }
            } else if line_in_block == 0 {
                match parse_button_line(bytes, line_start, i, 65) {
                    Ok((x, y)) => {
                        ax = x;
                        ay = y;
                    },
                    Err(e) => {
                        return Err(e);
                    },
                }
                line_in_block = 1;
            } else if line_in_block == 1 {
                match parse_button_line(bytes, line_start, i, 66) {
                    Ok((x, y)) => {
                        bx = x;
                        by = y;
                    },
                    Err(e) => {
                        return Err(e);
                    },
                }
                line_in_block = 2;
            } else {
                let (px, py) = match parse_prize_line(bytes, line_start, i) {
                    Ok(p) => p,
                    Err(e) => {
                        return Err(e);
                    },
                };
                let cost = solve_machine(ax, ay, bx, by, px + prize_offset, py + prize_offset);
                total = match total.checked_add(cost) {
                    Some(t) => t,
                    None => {
                        return Err("token total overflowed".to_owned());
                    },
                };
                line_in_block = 0;
            }
            if i < n {
                line_start = i + 1;
            }
        }
        if i == n {
            break ;
        }
        i = i + 1;
    }
    if line_in_block != 0 {
        return Err("a machine stops short of its three lines".to_owned());
    }
    Ok(total)
}

/// Parses one `Button A: X+11, Y+22` line; `which` picks the button
/// letter.
fn parse_button_line(bytes: &[u8], from: usize, to: usize, which: u8) -> (r: Result<
    (i64, i64),
    String,
>)
    requires
        from <= to <= bytes@.len(),
    ensures
        r matches Ok(p) ==> 0 <= p.0 <= 100000 && 0 <= p.1 <= 100000,
{
    // the literal label: `Button `, the letter, `: X+`
    if to - from < 12 {
        return Err("expected a button line".to_owned());
    }
    if !(bytes[from] == 66 && bytes[from + 1] == 117 && bytes[from + 2] == 116 && bytes[from + 3]
        == 116 && bytes[from + 4] == 111 && bytes[from + 5] == 110 && bytes[from + 6] == 32
        && bytes[from + 7] == which && bytes[from + 8] == 58 && bytes[from + 9] == 32 && bytes[
        from + 10] == 88 && bytes[from + 11] == 43) {
        return Err("expected a button line".to_owned());
    }
    parse_pair(bytes, from + 12, to, 43)
}

/// Parses one `Prize: X=11, Y=22` line.
fn parse_prize_line(bytes: &[u8], from: usize, to: usize) -> (r: Result<(i64, i64), String>)
    requires
        from <= to <= bytes@.len(),
    ensures
        r matches Ok(p) ==> 0 <= p.0 <= 0x2000_0000_0000 && 0 <= p.1 <= 0x2000_0000_0000,
{
    // the literal label: `Prize: X=`
    if to - from < 9 {
        return Err("expected a prize line".to_owned());
    }
    if !(bytes[from] == 80 && bytes[from + 1] == 114 && bytes[from + 2] == 105 && bytes[from + 3]
        == 122 && bytes[from + 4] == 101 && bytes[from + 5] == 58 && bytes[from + 6] == 32
        && bytes[from + 7] == 88 && bytes[from + 8] == 61) {
        return Err("expected a prize line".to_owned());
    }
    match parse_coordinate_pair(bytes, from + 9, to, 61) {
        Ok(p) => Ok(p),
        Err(e) => Err(e),
    }
}

/// Parses `11, Y<mark>22` where `mark` is the second coordinate's
/// lead-in byte, with button-sized bounds.
fn parse_pair(bytes: &[u8], from: usize, to: usize, mark: u8) -> (r: Result<(i64, i64), String>)
    requires
        from <= to <= bytes@.len(),
    ensures
        r matches Ok(p) ==> 0 <= p.0 <= 100000 && 0 <= p.1 <= 100000,
{
    match parse_coordinate_pair(bytes, from, to, mark) {
        Ok((x, y)) => {
            if x > 100000 || y > 100000 {
                Err("button offset is too large".to_owned())
            } else {
                Ok((x, y))
            }
        },
        Err(e) => Err(e),
    }
}

/// Parses `11, Y<mark>22` between the given positions.
fn parse_coordinate_pair(bytes: &[u8], from: usize, to: usize, mark: u8) -> (r: Result<
    (i64, i64),
    String,
>)
    requires
        from <= to <= bytes@.len(),
    ensures
        r matches Ok(p) ==> 0 <= p.0 <= 0x2000_0000_0000 && 0 <= p.1 <= 0x2000_0000_0000,
{
    let mut value: i64 = 0;
    let mut i = from;
    let mut saw_digit = false;
    while i < to && bytes[i] >= 48 && bytes[i] <= 57
        invariant
            from <= i <= to,
            to <= bytes@.len(),
            0 <= value <= 0x2000_0000_0000,
        decreases to - i,
    {
        if value > 0x200_0000_0000 {
            return Err("machine coordinate is too large".to_owned());
        }
        value = value * 10 + ((bytes[i] - 48) as i64);
        saw_digit = true;
        i = i + 1;
    }
    if !saw_digit {
        return Err("expected a coordinate".to_owned());
    }
    // the separator: `, Y` then the mark
    if to - i < 4 || !(bytes[i] == 44 && bytes[i + 1] == 32 && bytes[i + 2] == 89 && bytes[i + 3]
        == mark) {
        return Err("expected the second coordinate".to_owned());
    }
    let mut second: i64 = 0;
    let mut j = i + 4;
    if j == to {
        return Err("expected a coordinate".to_owned());
    }
    while j < to
        invariant
            i + 4 <= j <= to,
            to <= bytes@.len(),
            0 <= second <= 0x2000_0000_0000,
        decreases to - j,
    {
        let b = bytes[j];
        if b < 48 || b > 57 {
            return Err("expected a coordinate".to_owned());
        }
        if second > 0x200_0000_0000 {
            return Err("machine coordinate is too large".to_owned());
        }
        second = second * 10 + ((b - 48) as i64);
        j = j + 1;
    }
    Ok((value, second))
}

} // verus!
