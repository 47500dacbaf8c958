use vstd::prelude::*;
use vstd::string::StringSliceAdditionalSpecFns;
use std::collections::HashMap;
use crate::digits::{span_digits, span_value, lemma_span_prefix};

verus! {

broadcast use vstd::std_specs::hash::group_hash_axioms;

/// An engraved stone, identified by its number.
pub type Stone = u64;

/// How many stones one stone becomes after a number of blinks.
pub type Count = i64;

pub type Iterations = u32;

/// Ten to the `k`th power.
pub open spec fn p10(k: nat) -> nat
    decreases k,
{
    if k == 0 {
        1
    } else {
        10 * p10((k - 1) as nat)
    }
}

/// How many decimal digits `n` has.
pub open spec fn num_digits(n: nat) -> nat
    decreases n,
{
    if n < 10 {
        1
    } else {
        1 + num_digits(n / 10)
    }
}

/// The blink rule: a zero becomes a one; a stone with evenly many
/// digits splits in half; anything else is multiplied by 2024.  This
/// counts the stones a single stone becomes after `iters` blinks.
pub open spec fn blink_count(stone: nat, iters: nat) -> nat
    decreases iters,
{
    if iters == 0 {
        1
    } else if stone == 0 {
        blink_count(1, (iters - 1) as nat)
    } else if num_digits(stone) % 2 == 0 {
        let half = p10(num_digits(stone) / 2);
        blink_count(stone / half, (iters - 1) as nat) + blink_count(
            stone % half,
            (iters - 1) as nat,
        )
    } else {
        blink_count(stone * 2024, (iters - 1) as nat)
    }
}

/// Every cached entry holds the true blink count for its key.
pub open spec fn cache_ok(m: Map<u128, i64>) -> bool {
    forall|k: u128|
        m.contains_key(k) ==> 0 <= #[trigger] m[k] && m[k] == blink_count(
            (k as nat) / 0x1_0000_0000,
            (k as nat) % 0x1_0000_0000,
        )
}

/// Parses a decimal count of at most 39 digits into its power-of-ten
/// width; ten to this power fits in a u64 only below 20.
fn pow10_u64(k: u32) -> (r: u64)
    requires
        k < 20,
    ensures
        r == p10(k as nat),
    decreases k,
{
    if k == 0 {
        1
    } else {
        proof {
            lemma_p10_increases(k as nat);
        }
        10 * pow10_u64(k - 1)
    }
}

/// Ten to any power below twenty fits in a u64.
proof fn lemma_p10_increases(k: nat)
    ensures
        k < 20 ==> p10(k) <= 10_000_000_000_000_000_000,
        p10(k) >= 1,
    decreases k,
{
    if k > 0 {
        lemma_p10_increases((k - 1) as nat);
        if k < 20 {
            assert(p10(k) == 10 * p10((k - 1) as nat));
            lemma_p10_at(k);
        }
    }
}

/// Evaluates small powers of ten by computation.
proof fn lemma_p10_at(k: nat)
    requires
        k < 20,
    ensures
        p10(k) <= 10_000_000_000_000_000_000,
    decreases k,
{
    reveal_with_fuel(p10, 21);
    assert(p10(19) == 10_000_000_000_000_000_000);
}

/// How many decimal digits a stone has.
fn digit_count(value: u64) -> (r: u32)
    requires
        value >= 1,
    ensures
        r == num_digits(value as nat),
        1 <= r <= 20,
{
    let mut v = value;
    let mut digits: u32 = 1;
    proof {
        assert(p10(0) == 1);
        assert((value as nat) * p10(0nat) == value as nat) by (nonlinear_arith)
            requires p10(0nat) == 1,
        ;
    }
    while v >= 10
        invariant
            v >= 1,
            1 <= digits <= 20,
            num_digits(value as nat) == num_digits(v as nat) + digits - 1,
            (v as nat) * p10((digits - 1) as nat) <= value as nat,
        decreases v,
    {
        proof {
            if digits == 20 {
                reveal_with_fuel(p10, 21);
                assert(p10(19) == 10_000_000_000_000_000_000);
                assert((v as nat) * p10(19nat) >= 10 * p10(19nat)) by (nonlinear_arith)
                    requires v >= 10,
                ;
                assert(false);
            }
            assert((v as nat / 10) * p10(digits as nat) <= (v as nat) * p10((digits - 1) as nat))
                by (nonlinear_arith)
                requires
                    v >= 10,
                    p10(digits as nat) == 10 * p10((digits - 1) as nat),
                    p10((digits - 1) as nat) >= 0,
            ;
            assert(p10(digits as nat) == 10 * p10((digits - 1) as nat));
        }
        v = v / 10;
        digits = digits + 1;
    }
    digits
}

/// Splits the digits of `value` in half: the left half keeps the
/// leading digits, the right half the trailing ones.
pub fn split(value: Stone, digit_count: u32) -> (r: (Stone, Stone))
    requires
        digit_count < 40,
    ensures
        r.0 == (value as nat) / p10((digit_count / 2) as nat),
        r.1 == (value as nat) % p10((digit_count / 2) as nat),
{
    let half_digit_count = digit_count / 2;
    if half_digit_count >= 20 {
        // ten to this power exceeds every u64 value, so the whole
        // value lands in the right half
        proof {
            lemma_p10_monotone(20, (half_digit_count) as nat);
            lemma_p10_at(19);
            assert(p10(20) == 10 * p10(19));
        }
        return (0, value);
    }
    let divisor = pow10_u64(half_digit_count);
    proof {
        lemma_p10_increases(half_digit_count as nat);
    }
    let new_left = value / divisor;
    proof {
        vstd::arithmetic::div_mod::lemma_fundamental_div_mod(value as int, divisor as int);
        assert((new_left as int) * (divisor as int) == (divisor as int) * (new_left as int))
            by (nonlinear_arith);
    }
    let new_right = value - (new_left * divisor);
    (new_left, new_right)
}

/// Powers of ten grow with the exponent.
proof fn lemma_p10_monotone(a: nat, b: nat)
    requires
        a <= b,
    ensures
        p10(a) <= p10(b),
    decreases b,
{
    if a < b {
        lemma_p10_monotone(a, (b - 1) as nat);
        lemma_p10_increases((b - 1) as nat);
        assert(p10(b) == 10 * p10((b - 1) as nat));
    }
}

/// Counts the stones one stone becomes after the given number of
/// blinks, caching every subresult.  `None` reports an intermediate
/// value too large for the machine.
pub fn simulate_blinks(
    stone: Stone,
    iterations: Iterations,
    cache: &mut HashMap<u128, Count>,
) -> (r: Option<Count>)
    requires
        cache_ok(old(cache)@),
    ensures
        cache_ok(final(cache)@),
        r matches Some(c) ==> c == blink_count(stone as nat, iterations as nat),
        forall|k: u128|
            #[trigger] old(cache)@.contains_key(k) ==> final(cache)@.contains_key(k) && final(
            cache)@[k] == old(cache)@[k],
    decreases iterations,
{
    if iterations == 0 {
        return Some(1);
    }

    let key: u128 = (stone as u128) * 0x1_0000_0000 + (iterations as u128);
    proof {
        vstd::arithmetic::div_mod::lemma_fundamental_div_mod_converse(
            key as int, 0x1_0000_0000, stone as int, iterations as int);
    }
    match cache.get(&key) {
        Some(count) => {
            return Some(*count);
        },
        None => {},
    }

    let count: Option<Count> = if stone == 0 {
        simulate_blinks(1, iterations - 1, cache)
    } else {
        let digits = digit_count(stone);
        if digits % 2 == 0 {
            let (left, right) = split(stone, digits);
            proof {
                lemma_p10_increases((digits / 2) as nat);
                vstd::arithmetic::div_mod::lemma_fundamental_div_mod(
                    stone as int, p10((digits / 2) as nat) as int);
            }
            match simulate_blinks(left, iterations - 1, cache) {
                Some(a) => match simulate_blinks(right, iterations - 1, cache) {
                    Some(b) => a.checked_add(b),
                    None => None,
                },
                None => None,
            }
        } else {
            match stone.checked_mul(2024) {
                Some(next) => simulate_blinks(next, iterations - 1, cache),
                None => None,
            }
        }
    };

    proof {
        assert forall|k: u128|
            old(cache)@.contains_key(k) implies cache@.contains_key(k) && cache@[k] == old(
            cache)@[k] by {}
    }
    if let Some(c) = count {
        proof {
            assert(!old(cache)@.contains_key(key));
        }
        cache.insert(key, c);
        proof {
            assert((key as nat) / 0x1_0000_0000 == stone as nat && (key as nat) % 0x1_0000_0000
                == iterations as nat);
            assert forall|k: u128|
                old(cache)@.contains_key(k) implies cache@.contains_key(k) && cache@[k] == old(
                cache)@[k] by {
                assert(k != key);
            }
        }
        return Some(c);
    }
    None
}

/// Parses a decimal u64; accepts exactly nonempty all-digit tokens
/// whose value fits the machine word.
pub fn parse_to(v: &str) -> (r: Result<u64, String>)
    ensures
        r is Ok <==> v.spec_bytes().len() > 0 && span_digits(v.spec_bytes()) && span_value(
            v.spec_bytes(),
        ) <= u64::MAX,
        r matches Ok(x) ==> x == span_value(v.spec_bytes()),
{
    let bytes = v.as_bytes();
    let ghost s = v.spec_bytes();
    let n = bytes.len();
    if n == 0 {
        return Err("couldn't parse an empty token".to_owned());
    }
    let mut value: u64 = 0;
    let mut i: usize = 0;
    while i < n
        invariant
            i <= n,
            n == bytes@.len(),
            s == bytes@,
            s == v.spec_bytes(),
            span_digits(s.take(i as int)),
            value == span_value(s.take(i as int)),
        decreases n - i,
    {
        let b = bytes[i];
        if b < 48 || b > 57 {
            proof {
                assert(!(48 <= s[i as int] <= 57));
                assert(!span_digits(s));
            }
            return Err("couldn't parse".to_owned());
        }
        let digit = (b - 48) as u64;
        proof {
            assert(s.take(i + 1).drop_last() =~= s.take(i as int));
            assert(s.take(i + 1).last() == s[i as int]);
            assert(span_digits(s.take(i + 1)));
        }
        value = match value.checked_mul(10) {
            Some(t) => match t.checked_add(digit) {
                Some(sum) => sum,
                None => {
                    proof {
                        assert(span_value(s.take(i + 1)) == value * 10 + digit);
                        if span_digits(s) {
                            lemma_span_prefix(s, i + 1);
                            assert(span_value(s) > u64::MAX);
                        }
                    }
                    return Err("couldn't parse".to_owned());
                },
            },
            None => {
                proof {
                    assert(span_value(s.take(i + 1)) == value * 10 + digit);
                    assert(value * 10 > u64::MAX);
                    if span_digits(s) {
                        lemma_span_prefix(s, i + 1);
                        assert(span_value(s) > u64::MAX);
                    }
                }
                return Err("couldn't parse".to_owned());
            },
        };
        i = i + 1;
    }
    proof {
        assert(s.take(n as int) =~= s);
    }
    Ok(value)
}

/// Sums, over every space-separated stone in the input, the number of
/// stones it becomes after 25 blinks (part 1) or 75 blinks
/// (otherwise).  A malformed token or an overflowing count is an
/// error.
pub fn run_on_string(input: &str, part: u8) -> (r: Result<i64, String>)
    ensures
        r matches Ok(v) ==> v >= 0,
{
    let blink_count: u32 = if part == 1 {
        25
    } else {
        75
    };

    let mut cache: HashMap<u128, Count> = HashMap::new();
    proof {
        assert(cache_ok(cache@));
    }

    let bytes = input.as_bytes();
    let n = bytes.len();
    let mut total: i64 = 0;
    let mut token_start: usize = 0;
    let mut i: usize = 0;
    while i < n
        invariant
            token_start <= n,
            i <= n,
            n == bytes@.len(),
            cache_ok(cache@),
            total >= 0,
        decreases n - i,
    {
        if bytes[i] == 32 {
            match accumulate_token(input, token_start, i, blink_count, &mut cache, total) {
                Ok(t) => {
                    total = t;
                },
                Err(e) => {
                    return Err(e);
                },
            }
            token_start = i + 1;
        }
        i = i + 1;
    }
    match accumulate_token(input, token_start, n, blink_count, &mut cache, total) {
        Ok(t) => Ok(t),
        Err(e) => Err(e),
    }
}

/// Parses the token between the two positions and adds the number of
/// stones it becomes after the given blinks to the running total.
fn accumulate_token(
    input: &str,
    from: usize,
    to: usize,
    blinks: u32,
    cache: &mut HashMap<u128, Count>,
    total: i64,
) -> (r: Result<i64, String>)
    requires
        cache_ok(old(cache)@),
        total >= 0,
    ensures
        cache_ok(final(cache)@),
        r matches Ok(t) ==> t >= 0,
{
    let token = token_of(input, from, to);
    let stone = match parse_to(token.as_str()) {
        Ok(s) => s,
        Err(e) => {
            return Err(e);
        },
    };
    let counted = match simulate_blinks(stone, blinks, cache) {
        Some(c) => c,
        None => {
            return Err("stone count overflowed".to_owned());
        },
    };
    if counted < 0 {
        return Err("stone count overflowed".to_owned());
    }
    match total.checked_add(counted) {
        Some(t) => Ok(t),
        None => Err("stone count overflowed".to_owned()),
    }
}

/// Relies on str::get with a byte range: it returns the substring
/// between the two byte indexes when they are in range and fall on
/// character boundaries, and an empty string otherwise.
#[verifier::external_body]
fn token_of(input: &str, from: usize, to: usize) -> (r: String)
    ensures
        r@.len() <= input@.len(),
{
    match input.get(from..to) {
        Some(s) => s.to_string(),
        None => String::new(),
    }
}

} // verus!
