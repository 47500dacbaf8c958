use vstd::prelude::*;

verus! {

/// One slot of a calibration line: an operand with its power-of-ten
/// width (for concatenation), an operator, or an undecided operator
/// slot.
#[derive(Debug, Clone, Copy, PartialEq, Eq, Structural)]
pub enum Token {
    Unknown,
    Add,
    Multiply,
    Concat,
    Value(i64, i64),
}

/// One calibration line: the claimed result and the interleaved
/// operand and operator slots.
#[derive(Debug)]
pub struct Input {
    pub line_number: usize,
    pub result: i64,
    pub args: Vec<Token>,
    pub operators: Vec<usize>,
}

/// A mixed-radix odometer over the operator slots: each slot counts
/// up to the highest operator for the part.
#[derive(Debug)]
pub struct Permutation {
    pub ops: Vec<u8>,
    pub limit: u8,
}

impl Permutation {
    /// An odometer at all zeros with one guard slot beyond the count.
    pub fn new(count: usize, part: u8) -> (r: Permutation)
        requires
            count < usize::MAX,
        ensures
            r.ops.len() == count + 1,
            forall|i: int| 0 <= i < r.ops.len() ==> #[trigger] r.ops[i] == 0,
            r.limit == part,
    {
        let mut ops: Vec<u8> = Vec::new();
        while ops.len() < count + 1
            invariant
                count < usize::MAX,
                ops.len() <= count + 1,
                forall|i: int| 0 <= i < ops.len() ==> #[trigger] ops[i] == 0,
            decreases count + 1 - ops.len(),
        {
            ops.push(0);
        }
        Permutation { ops, limit: part }
    }

    /// Steps the odometer: the lowest slot still below the highest
    /// operator ticks up and every slot beneath it rolls to zero;
    /// with no such slot the whole odometer rolls over.  Reports
    /// whether the guard slot is still untouched, that is, whether
    /// unseen settings remain.
    pub fn increment_permutation(&mut self) -> (r: bool)
        requires
            old(self).ops.len() > 0,
        ensures
            final(self).ops.len() == old(self).ops.len(),
            final(self).limit == old(self).limit,
            r == (final(self).ops[final(self).ops.len() - 1] == 0),
            forall|k: int|
                0 <= k < old(self).ops.len() && old(self).ops[k] < old(self).limit && (forall|
                    j: int,
                |
                    0 <= j < k ==> old(self).ops[j] >= old(self).limit) ==> (forall|j: int|
                    0 <= j < k ==> final(self).ops[j] == 0) && (#[trigger] final(self).ops[k])
                    == old(self).ops[k] + 1 && (forall|j: int|
                    k < j < old(self).ops.len() ==> final(self).ops[j] == old(self).ops[j]),
            (forall|k: int| 0 <= k < old(self).ops.len() ==> old(self).ops[k] >= old(
                self).limit) ==> forall|j: int|
                0 <= j < old(self).ops.len() ==> final(self).ops[j] == 0,
    {
        let len = self.ops.len();
        let mut i: usize = 0;
        let ghost mut ticked: Option<int> = None;
        while i < len
            invariant_except_break
                ticked is None,
                forall|j: int| i <= j < len ==> self.ops[j] == (#[trigger] old(self).ops[j]),
            invariant
                len == self.ops.len(),
                i <= len,
                self.limit == old(self).limit,
                forall|j: int|
                    0 <= j < i ==> (#[trigger] old(self).ops[j]) >= old(self).limit
                        && self.ops[j] == 0,
                forall|j: int| 0 <= j < i ==> (#[trigger] self.ops[j]) == 0,
            ensures
                len == self.ops.len(),
                self.limit == old(self).limit,
                match ticked {
                    Option::Some(kk) => {
                        &&& 0 <= kk < len
                        &&& old(self).ops[kk] < old(self).limit
                        &&& forall|j: int|
                            0 <= j < kk ==> (#[trigger] old(self).ops[j]) >= old(self).limit
                        &&& forall|j: int| 0 <= j < kk ==> (#[trigger] self.ops[j]) == 0
                        &&& self.ops[kk] == old(self).ops[kk] + 1
                        &&& forall|j: int|
                            kk < j < len ==> (#[trigger] self.ops[j]) == old(self).ops[j]
                    },
                    Option::None => forall|j: int|
                        0 <= j < len ==> (#[trigger] old(self).ops[j]) >= old(self).limit
                            && self.ops[j] == 0,
                },
            decreases len - i,
        {
            let v = self.ops[i];
            proof {
                assert(v == old(self).ops[i as int]);
            }
            if v == 255 {
                self.ops.set(i, 0);
                proof {
                    assert(old(self).ops[i as int] >= old(self).limit);
                    assert(self.ops[i as int] == 0);
                }
            } else {
                self.ops.set(i, v + 1);
                if v + 1 <= self.limit {
                    proof {
                        ticked = Some(i as int);
                        assert(forall|j: int|
                            i < j < len ==> self.ops[j] == (#[trigger] old(self).ops[j]));
                    }
                    break ;
                }
                self.ops.set(i, 0);
                proof {
                    assert(old(self).ops[i as int] >= old(self).limit);
                    assert(self.ops[i as int] == 0);
                }
            }
            proof {
                assert forall|j: int|
                    0 <= j < i + 1 implies (#[trigger] old(self).ops[j]) >= old(self).limit
                        && self.ops[j] == 0 by {}
                assert forall|j: int| 0 <= j < i + 1 implies (#[trigger] self.ops[j]) == 0 by {}
            }
            i = i + 1;
        }
        proof {
            assert forall|k: int|
                0 <= k < old(self).ops.len() && old(self).ops[k] < old(self).limit && (forall|
                    j: int,
                |
                    0 <= j < k ==> old(self).ops[j] >= old(self).limit) implies (forall|j: int|
                0 <= j < k ==> self.ops[j] == 0) && (#[trigger] self.ops[k]) == old(self).ops[k]
                + 1 && (forall|j: int|
                k < j < old(self).ops.len() ==> self.ops[j] == old(self).ops[j]) by {
                match ticked {
                    Option::Some(kk) => {
                        if k < kk {
                            assert(old(self).ops[k] >= old(self).limit);
                        }
                        if k > kk {
                            assert(old(self).ops[kk] >= old(self).limit);
                        }
                        assert(k == kk);
                    },
                    Option::None => {
                        assert(old(self).ops[k] >= old(self).limit);
                    },
                }
            }
        }
        self.ops[len - 1] == 0
    }

    /// The operator chosen for one slot.
    pub fn operator_at(&self, index: usize) -> (r: u8)
        requires
            index < self.ops.len(),
        ensures
            r == self.ops[index as int],
    {
        self.ops[index]
    }
}

/// What a filled-in token run evaluates to, left to right with no
/// operator precedence: operands fold into the accumulator by the
/// operator before them, and concatenation shifts the accumulator by
/// the operand's width first.  An undecided slot has no value.
pub open spec fn spec_eval(args: Seq<Token>, i: int, acc: int) -> Option<int>
    decreases args.len() - i,
{
    if i < 0 || i >= args.len() {
        Some(acc)
    } else {
        match args[i] {
            Token::Unknown => None,
            Token::Add => if i + 1 < args.len() && args[i + 1] is Value {
                spec_eval(args, i + 2, acc + args[i + 1]->Value_0)
            } else {
                spec_eval(args, i + 1, acc)
            },
            Token::Multiply => if i + 1 < args.len() && args[i + 1] is Value {
                spec_eval(args, i + 2, acc * args[i + 1]->Value_0)
            } else {
                spec_eval(args, i + 1, acc)
            },
            Token::Concat => if i + 1 < args.len() && args[i + 1] is Value {
                spec_eval(args, i + 2, acc * args[i + 1]->Value_1 + args[i + 1]->Value_0)
            } else {
                spec_eval(args, i + 1, acc)
            },
            Token::Value(v, o) => spec_eval(args, i + 1, v as int),
        }
    }
}

/// Evaluates the filled-in token run left to right, with no operator
/// precedence: operands fold into the accumulator by the operator
/// before them; concatenation shifts by the operand's width.  `None`
/// reports a value the machine cannot hold.
pub fn eval_tokens(args: &Vec<Token>) -> (r: Option<i64>)
    ensures
        r matches Some(v) ==> spec_eval(args@, 0, 0) == Some(v as int),
{
    let mut result: i64 = 0;
    let mut arg_index: usize = 0;
    let n = args.len();
    while arg_index < n
        invariant
            n == args.len(),
            arg_index <= n,
            spec_eval(args@, 0, 0) == spec_eval(args@, arg_index as int, result as int),
        decreases n - arg_index,
    {
        let ghost i0 = arg_index as int;
        let ghost acc0 = result as int;
        match args[arg_index] {
            Token::Unknown => {
                return None;
            },
            Token::Add => {
                if arg_index + 1 < n {
                    if let Token::Value(value, _) = args[arg_index + 1] {
                        arg_index = arg_index + 1;
                        result = match result.checked_add(value) {
                            Some(v) => v,
                            None => {
                                return None;
                            },
                        };
                    }
                }
            },
            Token::Multiply => {
                if arg_index + 1 < n {
                    if let Token::Value(value, _) = args[arg_index + 1] {
                        arg_index = arg_index + 1;
                        result = match result.checked_mul(value) {
                            Some(v) => v,
                            None => {
                                return None;
                            },
                        };
                    }
                }
            },
            Token::Concat => {
                if arg_index + 1 < n {
                    if let Token::Value(value, offset) = args[arg_index + 1] {
                        arg_index = arg_index + 1;
                        result = match result.checked_mul(offset) {
                            Some(v) => match v.checked_add(value) {
                                Some(s) => s,
                                None => {
                                    return None;
                                },
                            },
                            None => {
                                return None;
                            },
                        };
                    }
                }
            },
            Token::Value(value, _) => {
                result = value;
            },
        }
        proof {
            assert(spec_eval(args@, i0, acc0) == spec_eval(
                args@, arg_index + 1, result as int));
        }
        arg_index = arg_index + 1;
    }
    Some(result)
}

/// Whether some assignment of operators to the line's slots makes the
/// operands evaluate, left to right, to the claimed result.  Tries
/// every assignment the odometer enumerates; an evaluation the
/// machine cannot hold counts as a mismatch.
pub fn could_be_true(calc: &Input, part: u8) -> (r: bool)
    ensures
        r ==> exists|filled: Seq<Token>|
            {
                &&& filled.len() == calc.args@.len()
                &&& (forall|j: int|
                    0 <= j < filled.len() && filled[j] != calc.args@[j] ==> exists|k: int|
                        0 <= k < calc.operators@.len() && (#[trigger] calc.operators@[k]) == j)
                &&& #[trigger] spec_eval(filled, 0, 0) == Some(calc.result as int)
            },
{
    let operator_count = calc.operators.len();
    if operator_count >= usize::MAX {
        return false;
    }
    let mut args: Vec<Token> = Vec::new();
    let mut k: usize = 0;
    while k < calc.args.len()
        invariant
            k <= calc.args.len(),
            args.len() == k,
            args@ == calc.args@.subrange(0, k as int),
        decreases calc.args.len() - k,
    {
        args.push(calc.args[k]);
        k = k + 1;
    }
    proof {
        assert(args@ =~= calc.args@);
    }

    let mut p = Permutation::new(operator_count, part);
    // the odometer has one guard slot beyond the operator slots, so
    // it rolls over after at most (limit+1)^(count+1) steps
    let mut fuel: u64 = 0xffff_ffff_ffff_ffff;
    while fuel > 0
        invariant
            p.ops.len() == operator_count + 1,
            operator_count == calc.operators.len(),
            args.len() == calc.args.len(),
            forall|j: int|
                0 <= j < args.len() && args[j] != calc.args@[j] ==> exists|k: int|
                    0 <= k < calc.operators@.len() && (#[trigger] calc.operators@[k]) == j,
        decreases fuel,
    {
        fuel = fuel - 1;
        let mut index: usize = 0;
        while index < operator_count
            invariant
                p.ops.len() == operator_count + 1,
                operator_count == calc.operators.len(),
                args.len() == calc.args.len(),
                index <= operator_count,
                forall|j: int|
                    0 <= j < args.len() && args[j] != calc.args@[j] ==> exists|k: int|
                        0 <= k < calc.operators@.len() && (#[trigger] calc.operators@[k]) == j,
            decreases operator_count - index,
        {
            let slot = calc.operators[index];
            if slot >= args.len() {
                return false;
            }
            let ghost before = args@;
            let op = match p.operator_at(index) {
                0 => Token::Add,
                1 => Token::Multiply,
                _ => Token::Concat,
            };
            args.set(slot, op);
            proof {
                assert forall|j: int|
                    0 <= j < args.len() && args[j] != calc.args@[j] implies exists|k: int|
                        0 <= k < calc.operators@.len() && (#[trigger] calc.operators@[k])
                            == j by {
                    if j == slot {
                        assert(calc.operators@[index as int] == j);
                    } else {
                        assert(args[j] == before[j]);
                    }
                }
            }
            index = index + 1;
        }

        let evaluated = eval_tokens(&args);
        if let Some(result) = evaluated {
            if result == calc.result {
                proof {
                    let filled = args@;
                    assert(filled.len() == calc.args@.len() && (forall|j: int|
                        0 <= j < filled.len() && filled[j] != calc.args@[j] ==> exists|k: int|
                            0 <= k < calc.operators@.len() && (#[trigger] calc.operators@[k])
                                == j) && spec_eval(filled, 0, 0) == Some(calc.result as int));
                }
                return true;
            }
        }

        if !p.increment_permutation() {
            break ;
        }
    }
    false
}

/// Parses a decimal i64 from the bytes between two positions.
fn parse_int(bytes: &[u8], from: usize, to: usize) -> (r: Result<i64, String>)
    requires
        from <= to <= bytes@.len(),
    ensures
        r matches Ok(v) ==> 0 <= v,
{
    if from == to {
        return Err("empty number".to_owned());
    }
    let mut value: i64 = 0;
    let mut i = from;
    while i < to
        invariant
            from <= i <= to,
            to <= bytes@.len(),
            0 <= value,
        decreases to - i,
    {
        let b = bytes[i];
        if b < 48 || b > 57 {
            return Err("not a number".to_owned());
        }
        if value > 0x10_0000_0000_0000 {
            return Err("number is too large".to_owned());
        }
        value = value * 10 + ((b - 48) as i64);
        i = i + 1;
    }
    Ok(value)
}

/// Ten to the power of the digit count of the byte span, for
/// concatenation; one when it would not fit.
fn offset_for(len: usize) -> (r: i64)
    ensures
        r >= 1,
{
    if len == 1 {
        10
    } else if len == 2 {
        100
    } else if len == 3 {
        1000
    } else if len == 4 {
        10000
    } else if len == 5 {
        100000
    } else if len == 6 {
        1000000
    } else if len == 7 {
        10000000
    } else if len == 8 {
        100000000
    } else if len == 9 {
        1000000000
    } else if len == 10 {
        10000000000
    } else if len == 11 {
        100000000000
    } else if len == 12 {
        1000000000000
    } else if len == 13 {
        10000000000000
    } else if len == 14 {
        100000000000000
    } else if len == 15 {
        1000000000000000
    } else if len == 16 {
        10000000000000000
    } else if len == 17 {
        100000000000000000
    } else if len >= 18 {
        1000000000000000000
    } else {
        1
    }
}

/// Sums the claimed results of the calibration lines that some
/// operator assignment satisfies: addition and multiplication for
/// part 1, concatenation as well for part 2.  Each line reads
/// `result: a b c`; anything else is an error.
pub fn run_on_string(input: &str, part: u8) -> (r: Result<i64, String>)
{
    let bytes = input.as_bytes();
    let n = bytes.len();
    let mut total: i64 = 0;
    let mut line_start: usize = 0;
    let mut line_number: usize = 0;
    let mut i: usize = 0;
    while i <= n
        invariant
            line_start <= i,
            i <= n,
            n == bytes@.len(),
        decreases n + 1 - i,
    {
        if i == n || bytes[i] == 10 {
            if line_start < i {
                match line_value(bytes, line_start, i, line_number, part) {
                    Ok(value) => {
                        total = match total.checked_add(value) {
                            Some(t) => t,
                            None => {
                                return Err("calibration total overflowed".to_owned());
                            },
                        };
                    },
                    Err(e) => {
                        return Err(e);
                    },
                }
            }
            if line_number < usize::MAX {
                line_number = line_number + 1;
            }
            if i < n {
                line_start = i + 1;
            }
        }
        if i == n {
            break ;
        }
        i = i + 1;
    }
    Ok(total)
}

/// The claimed result of one line when reachable, zero otherwise.
fn line_value(bytes: &[u8], from: usize, to: usize, line_number: usize, part: u8) -> (r: Result<
    i64,
    String,
>)
    requires
        from <= to <= bytes@.len(),
{
    // find the ": " separator
    let mut sep = from;
    while sep < to && bytes[sep] != 58
        invariant
            from <= sep <= to,
            to <= bytes@.len(),
        decreases to - sep,
    {
        sep = sep + 1;
    }
    if sep == to {
        return Err("expected a result before a colon".to_owned());
    }
    let target = match parse_int(bytes, from, sep) {
        Ok(v) => v,
        Err(e) => {
            return Err(e);
        },
    };

    let mut calc = Input { line_number, result: target, args: Vec::new(), operators: Vec::new() };

    let mut start = sep + 1;
    let mut i = sep + 1;
    while i <= to
        invariant
            sep < start,
            start <= i,
            i <= to,
            to <= bytes@.len(),
        decreases to + 1 - i,
    {
        if i == to || bytes[i] == 32 {
            if start < i {
                let value = match parse_int(bytes, start, i) {
                    Ok(v) => v,
                    Err(e) => {
                        return Err(e);
                    },
                };
                if calc.args.len() > 0 {
                    let position = calc.args.len();
                    calc.operators.push(position);
                    calc.args.push(Token::Unknown);
                }
                calc.args.push(Token::Value(value, offset_for(i - start)));
            }
            if i < to {
                start = i + 1;
            }
        }
        if i == to {
            break ;
        }
        i = i + 1;
    }

    if could_be_true(&calc, part) {
        Ok(calc.result)
    } else {
        Ok(0)
    }
}

} // verus!
