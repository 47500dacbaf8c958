use vstd::prelude::*;
use vstd::string::StringSliceAdditionalSpecFns;
use crate::digits::{span_digits, span_value, lemma_span_prefix};

verus! {

/// One configured run: which part, against which data, reading which
/// input file, expecting which result.
#[derive(Debug, Clone, PartialEq)]
pub struct Part {
    pub part: u8,
    pub mode: Mode,
    pub filename: String,
    pub expected: i64,
}

/// Whether a run uses the sample data or the real data.
#[derive(Debug, Clone, Copy, PartialEq, Eq, Structural)]
pub enum Mode {
    Test,
    Real,
}

impl Mode {
    /// Reads a mode letter: `r` for real, `t` for test, nothing else.
    pub fn from_str(input: &str) -> (r: Result<Mode, String>)
        ensures
            r == Ok::<Mode, String>(Mode::Real) <==> input.spec_bytes() == seq![114u8],
            r == Ok::<Mode, String>(Mode::Test) <==> input.spec_bytes() == seq![116u8],
            r is Err <==> input.spec_bytes() != seq![114u8] && input.spec_bytes() != seq![116u8],
    {
        let bytes = input.as_bytes();
        proof {
            if bytes@.len() == 1 {
                assert(bytes@ =~= seq![bytes@[0]]);
            }
        }
        if bytes.len() == 1 && bytes[0] == 114 {
            Ok(Mode::Real)
        } else if bytes.len() == 1 && bytes[0] == 116 {
            Ok(Mode::Test)
        } else {
            proof {
                assert(bytes@ != seq![114u8] && bytes@ != seq![116u8]) by {
                    if bytes@ =~= seq![114u8] || bytes@ =~= seq![116u8] {
                        assert(bytes@.len() == 1);
                    }
                }
            }
            Err("unknown mode".to_owned())
        }
    }
}

/// Parses the run configuration: one run per line in the form
/// `part,mode,filename,expected`, with blank and `//` comment lines
/// skipped and fields trimmed of spaces.
pub fn read_config(input: &str) -> (r: Result<Vec<Part>, String>)
{
    let bytes = input.as_bytes();
    let n = bytes.len();
    let mut parts: Vec<Part> = Vec::new();
    let mut line_start: usize = 0;
    let mut i: usize = 0;
    while i <= n
        invariant
            line_start <= i,
            i <= n,
            n == bytes@.len(),
        decreases n + 1 - i,
    {
        if i == n || bytes[i] == 10 {
            match parse_config_line(bytes, line_start, i) {
                Ok(Some(part)) => {
                    parts.push(part);
                },
                Ok(None) => {},
                Err(e) => {
                    return Err(e);
                },
            }
            if i < n {
                line_start = i + 1;
            }
        }
        if i == n {
            break ;
        }
        i = i + 1;
    }
    Ok(parts)
}

/// Parses one configuration line; a blank or comment line is skipped.
fn parse_config_line(bytes: &[u8], from: usize, to: usize) -> (r: Result<Option<Part>, String>)
    requires
        from <= to <= bytes@.len(),
{
    let (start, end) = trim_range(bytes, from, to);
    if start == end {
        return Ok(None);
    }
    if end - start >= 2 && bytes[start] == 47 && bytes[start + 1] == 47 {
        return Ok(None);
    }

    // the four comma-separated fields
    let c1 = match find_comma(bytes, start, end) {
        Some(p) => p,
        None => {
            return Err("expected four fields".to_owned());
        },
    };
    let c2 = match find_comma(bytes, c1 + 1, end) {
        Some(p) => p,
        None => {
            return Err("expected four fields".to_owned());
        },
    };
    let c3 = match find_comma(bytes, c2 + 1, end) {
        Some(p) => p,
        None => {
            return Err("expected four fields".to_owned());
        },
    };

    let (f1s, f1e) = trim_range(bytes, start, c1);
    let (f2s, f2e) = trim_range(bytes, c1 + 1, c2);
    let (f3s, f3e) = trim_range(bytes, c2 + 1, c3);
    let (f4s, f4e) = trim_range(bytes, c3 + 1, end);

    let part_no = match parse_u8(bytes, f1s, f1e) {
        Ok(v) => v,
        Err(e) => {
            return Err(e);
        },
    };
    let mode = if f2e - f2s == 1 && bytes[f2s] == 114 {
        Mode::Real
    } else if f2e - f2s == 1 && bytes[f2s] == 116 {
        Mode::Test
    } else {
        return Err("unknown mode".to_owned());
    };
    let filename = bytes_to_string(bytes, f3s, f3e);
    let expected = match parse_i64(bytes, f4s, f4e) {
        Ok(v) => v,
        Err(e) => {
            return Err(e);
        },
    };
    Ok(Some(Part { part: part_no, mode, filename, expected }))
}

/// The span with leading and trailing spaces removed.
fn trim_range(bytes: &[u8], from: usize, to: usize) -> (r: (usize, usize))
    requires
        from <= to <= bytes@.len(),
    ensures
        from <= r.0 <= r.1 <= to,
{
    let mut s = from;
    let mut e = to;
    while s < e && (bytes[s] == 32 || bytes[s] == 13 || bytes[s] == 9)
        invariant
            from <= s <= e <= to,
            to <= bytes@.len(),
        decreases e - s,
    {
        s = s + 1;
    }
    while s < e && (bytes[e - 1] == 32 || bytes[e - 1] == 13 || bytes[e - 1] == 9)
        invariant
            from <= s <= e <= to,
            to <= bytes@.len(),
        decreases e - s,
    {
        e = e - 1;
    }
    (s, e)
}

/// The first comma at or after `from`, before `to`.
fn find_comma(bytes: &[u8], from: usize, to: usize) -> (r: Option<usize>)
    requires
        from <= to <= bytes@.len(),
    ensures
        r matches Some(p) ==> from <= p < to,
{
    let mut i = from;
    while i < to
        invariant
            from <= i <= to,
            to <= bytes@.len(),
        decreases to - i,
    {
        if bytes[i] == 44 {
            return Some(i);
        }
        i = i + 1;
    }
    None
}

/// Parses a decimal number that must fit the part field: accepts
/// exactly the nonempty all-digit spans whose value is at most 255.
fn parse_u8(bytes: &[u8], from: usize, to: usize) -> (r: Result<u8, String>)
    requires
        from <= to <= bytes@.len(),
    ensures
        r is Ok <==> {
            let s = bytes@.subrange(from as int, to as int);
            s.len() > 0 && span_digits(s) && span_value(s) <= 255
        },
        r matches Ok(x) ==> x == span_value(bytes@.subrange(from as int, to as int)),
{
    let ghost s = bytes@.subrange(from as int, to as int);
    if from == to {
        return Err("empty number".to_owned());
    }
    let mut value: u32 = 0;
    let mut i = from;
    while i < to
        invariant
            from <= i <= to,
            to <= bytes@.len(),
            s == bytes@.subrange(from as int, to as int),
            span_digits(s.take(i - from)),
            value == span_value(s.take(i - from)),
            value <= 255,
        decreases to - i,
    {
        let b = bytes[i];
        proof {
            assert(s[i - from] == bytes@[i as int]);
        }
        if b < 48 || b > 57 {
            proof {
                assert(!(48 <= s[i - from] <= 57));
                assert(!span_digits(s));
            }
            return Err("not a number".to_owned());
        }
        proof {
            assert(s.take(i - from + 1).drop_last() =~= s.take(i - from));
            assert(s.take(i - from + 1).last() == s[i - from]);
            assert(span_digits(s.take(i - from + 1)));
        }
        value = value * 10 + ((b - 48) as u32);
        if value > 255 {
            proof {
                if span_digits(s) {
                    lemma_span_prefix(s, i - from + 1);
                }
            }
            return Err("part number is too large".to_owned());
        }
        i = i + 1;
    }
    proof {
        assert(s.take(to - from) =~= s);
    }
    Ok(value as u8)
}

/// Parses a decimal i64, with an optional leading minus: accepts
/// exactly the spans whose digits after the optional sign are
/// nonempty and spell a value the type can hold.
fn parse_i64(bytes: &[u8], from: usize, to: usize) -> (r: Result<i64, String>)
    requires
        from <= to <= bytes@.len(),
    ensures
        r is Ok <==> {
            let s = bytes@.subrange(from as int, to as int);
            &&& s.len() > 0
            &&& if s[0] == 45 {
                s.len() > 1 && span_digits(s.skip(1)) && span_value(s.skip(1))
                    <= 0x8000_0000_0000_0000
            } else {
                span_digits(s) && span_value(s) <= i64::MAX
            }
        },
        r matches Ok(x) ==> {
            let s = bytes@.subrange(from as int, to as int);
            x == (if s[0] == 45 {
                -span_value(s.skip(1))
            } else {
                span_value(s)
            })
        },
{
    let ghost s = bytes@.subrange(from as int, to as int);
    if from == to {
        return Err("empty number".to_owned());
    }
    let negative = bytes[from] == 45;
    proof {
        assert(s[0] == bytes@[from as int]);
    }
    let start = if negative {
        from + 1
    } else {
        from
    };
    if start == to {
        return Err("empty number".to_owned());
    }
    let ghost digs = bytes@.subrange(start as int, to as int);
    proof {
        if negative {
            assert(digs =~= s.skip(1));
        } else {
            assert(digs =~= s);
        }
    }
    // accumulate on the negative side, which holds one more value
    // than the positive side does
    let mut value: i64 = 0;
    let mut i = start;
    while i < to
        invariant
            start <= i <= to,
            to <= bytes@.len(),
            s == bytes@.subrange(from as int, to as int),
            digs == bytes@.subrange(start as int, to as int),
            s.len() > 0,
            negative == (s[0] == 45),
            digs == (if negative {
                s.skip(1)
            } else {
                s
            }),
            span_digits(digs.take(i - start)),
            value == -span_value(digs.take(i - start)),
            value <= 0,
        decreases to - i,
    {
        let b = bytes[i];
        proof {
            assert(digs[i - start] == bytes@[i as int]);
        }
        if b < 48 || b > 57 {
            proof {
                assert(!(48 <= digs[i - start] <= 57));
                assert(!span_digits(digs));
            }
            return Err("not a number".to_owned());
        }
        proof {
            assert(digs.take(i - start + 1).drop_last() =~= digs.take(i - start));
            assert(digs.take(i - start + 1).last() == digs[i - start]);
            assert(span_digits(digs.take(i - start + 1)));
            assert(span_value(digs.take(i - start + 1)) == span_value(digs.take(i - start)) * 10
                + (digs[i - start] - 48));
        }
        value = match value.checked_mul(10) {
            Some(v) => match v.checked_sub((b - 48) as i64) {
                Some(w) => w,
                None => {
                    proof {
                        if span_digits(digs) {
                            lemma_span_prefix(digs, i - start + 1);
                        }
                    }
                    return Err("number is too large".to_owned());
                },
            },
            None => {
                proof {
                    if span_digits(digs) {
                        lemma_span_prefix(digs, i - start + 1);
                    }
                }
                return Err("number is too large".to_owned());
            },
        };
        i = i + 1;
    }
    proof {
        assert(digs.take(to - start) =~= digs);
    }
    if negative {
        Ok(value)
    } else if value == i64::MIN {
        Err("number is too large".to_owned())
    } else {
        Ok(-value)
    }
}

/// Relies on String::from_utf8_lossy via str::to_string: it copies
/// the span's bytes into an owned string, replacing any byte that is
/// not valid text.
#[verifier::external_body]
fn bytes_to_string(bytes: &[u8], from: usize, to: usize) -> (r: String)
    ensures
        r@.len() <= bytes@.len(),
{
    match bytes.get(from..to) {
        Some(s) => String::from_utf8_lossy(s).to_string(),
        None => String::new(),
    }
}

} // verus!
