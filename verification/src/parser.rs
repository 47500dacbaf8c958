use vstd::prelude::*;
use crate::calculator::Operation;

verus! {

/// Where the token scanner stands inside a `mul(a,b)`, `do()` or
/// `don't()` instruction.
#[derive(Debug, PartialEq, Eq, Structural, Clone, Copy)]
pub enum TokenState {
    BEGIN,
    M,
    U,
    L,
    OpenParen,
    Arg1,
    Comma,
    Arg2,
    CloseParen,
    D,
    O,
    OpenParenDo,
    CloseParenDo,
    N,
    Appostrophe,
    T,
    OpenParenDont,
    CloseParenDont,
}

/// How the scanner judged one byte.
#[derive(Debug, PartialEq, Eq, Structural, Clone, Copy)]
pub enum ParseResult {
    AcceptedChar,
    ConsumedUpTillNow,
    RejectedChar,
}

/// Scans a corrupted memory dump byte by byte, recognising `mul(a,b)`
/// instructions and, when toggles are supported, `do()` and
/// `don't()`.  Recognised instructions are handed out as operations.
#[derive(Debug)]
pub struct ElvishMachineLanguageParser {
    pub support_enabled_toggle: bool,
    pub state: TokenState,
    pub partial_token: Vec<u8>,
    pub arg1: Option<i32>,
    pub arg2: Option<i32>,
}

/// An ASCII decimal digit.
pub open spec fn is_digit(b: u8) -> bool {
    48 <= b <= 57
}

impl ElvishMachineLanguageParser {
    /// At most three digits are buffered, and parsed arguments stay
    /// below a thousand.
    pub open spec fn wf(self) -> bool {
        &&& self.partial_token.len() <= 3
        &&& forall|i: int|
            0 <= i < self.partial_token.len() ==> is_digit(#[trigger] self.partial_token[i])
        &&& (self.arg1 matches Some(a) ==> 0 <= a <= 999)
        &&& (self.arg2 matches Some(a) ==> 0 <= a <= 999)
        &&& (self.state != TokenState::Arg1 && self.state != TokenState::Arg2
            ==> self.partial_token.len() == 0)
    }

    pub fn new(support_enabled_toggle: bool) -> (r: ElvishMachineLanguageParser)
        ensures
            r.wf(),
            r.state == TokenState::BEGIN,
            r.support_enabled_toggle == support_enabled_toggle,
    {
        ElvishMachineLanguageParser {
            support_enabled_toggle,
            state: TokenState::BEGIN,
            arg1: None,
            arg2: None,
            partial_token: Vec::new(),
        }
    }

    /// The value of the buffered digits.
    fn token_value(&self) -> (r: i32)
        requires
            self.wf(),
        ensures
            0 <= r <= 999,
    {
        let mut value: i32 = 0;
        let mut i: usize = 0;
        let n = self.partial_token.len();
        while i < n
            invariant
                self.wf(),
                n == self.partial_token.len(),
                i <= n,
                0 <= value,
                value < 1000 && (n - i >= 1 ==> value <= 99) && (n - i >= 2 ==> value <= 9) && (n
                    - i >= 3 ==> value == 0),
            decreases n - i,
        {
            let b = self.partial_token[i];
            value = value * 10 + ((b - 48) as i32);
            i = i + 1;
        }
        value
    }

    /// Forgets any half-recognised instruction.
    fn reset_state(&mut self) -> (r: TokenState)
        requires
            old(self).wf(),
        ensures
            final(self).wf(),
            r == TokenState::BEGIN,
            final(self).partial_token.len() == 0,
            final(self).support_enabled_toggle == old(self).support_enabled_toggle,
            final(self).state == old(self).state,
    {
        self.arg1 = None;
        self.arg2 = None;
        self.partial_token.clear();
        TokenState::BEGIN
    }

    /// Feeds one byte to the scanner.  The verdict says whether the
    /// byte extended a candidate instruction, completed one (handing
    /// back the operation), or broke the candidate.
    pub fn load(&mut self, c: u8) -> (r: (ParseResult, Option<Operation>))
        requires
            old(self).wf(),
        ensures
            final(self).wf(),
            final(self).support_enabled_toggle == old(self).support_enabled_toggle,
            r.0 == ParseResult::RejectedChar ==> final(self).state == TokenState::BEGIN,
            r.0 == ParseResult::ConsumedUpTillNow ==> final(self).state == TokenState::BEGIN
                && old(self).state != TokenState::BEGIN,
            r.1 matches Some(op) ==> (op matches Operation::MUL(a, b) ==> 0 <= a <= 999 && 0 <= b
                <= 999),
            r.1 is Some ==> r.0 == ParseResult::ConsumedUpTillNow,
    {
        let support = self.support_enabled_toggle;
        let next: TokenState = match self.state {
            TokenState::BEGIN => {
                if c == 109 {
                    TokenState::M
                } else if c == 100 && support {
                    TokenState::D
                } else {
                    TokenState::BEGIN
                }
            },
            TokenState::M => if c == 117 {
                TokenState::U
            } else {
                TokenState::BEGIN
            },
            TokenState::U => if c == 108 {
                TokenState::L
            } else {
                TokenState::BEGIN
            },
            TokenState::L => if c == 40 {
                TokenState::OpenParen
            } else {
                TokenState::BEGIN
            },
            TokenState::OpenParen => {
                if c >= 48 && c <= 57 {
                    self.partial_token.push(c);
                    TokenState::Arg1
                } else {
                    self.reset_state()
                }
            },
            TokenState::Arg1 => {
                if self.partial_token.len() < 3 && c >= 48 && c <= 57 {
                    self.partial_token.push(c);
                    TokenState::Arg1
                } else if c == 44 {
                    if self.partial_token.len() > 0 {
                        let num = self.token_value();
                        self.arg1 = Some(num);
                        self.partial_token.clear();
                        TokenState::Comma
                    } else {
                        let s = self.reset_state();
                        s
                    }
                } else {
                    self.reset_state()
                }
            },
            TokenState::Comma => {
                if c >= 48 && c <= 57 {
                    self.partial_token.push(c);
                    TokenState::Arg2
                } else {
                    self.reset_state()
                }
            },
            TokenState::Arg2 => {
                if self.partial_token.len() < 3 && c >= 48 && c <= 57 {
                    self.partial_token.push(c);
                    TokenState::Arg2
                } else if c == 41 {
                    if self.partial_token.len() > 0 {
                        let num = self.token_value();
                        self.arg2 = Some(num);
                        self.partial_token.clear();
                        TokenState::CloseParen
                    } else {
                        TokenState::BEGIN
                    }
                } else {
                    self.reset_state()
                }
            },
            TokenState::D => if c == 111 {
                TokenState::O
            } else {
                TokenState::BEGIN
            },
            TokenState::O => {
                if c == 110 {
                    TokenState::N
                } else if c == 40 {
                    TokenState::OpenParenDo
                } else {
                    TokenState::BEGIN
                }
            },
            TokenState::OpenParenDo => if c == 41 {
                TokenState::CloseParenDo
            } else {
                TokenState::BEGIN
            },
            TokenState::N => if c == 39 {
                TokenState::Appostrophe
            } else {
                TokenState::BEGIN
            },
            TokenState::Appostrophe => if c == 116 {
                TokenState::T
            } else {
                TokenState::BEGIN
            },
            TokenState::T => if c == 40 {
                TokenState::OpenParenDont
            } else {
                TokenState::BEGIN
            },
            TokenState::OpenParenDont => if c == 41 {
                TokenState::CloseParenDont
            } else {
                TokenState::BEGIN
            },
            TokenState::CloseParen => TokenState::BEGIN,
            TokenState::CloseParenDo => TokenState::BEGIN,
            TokenState::CloseParenDont => TokenState::BEGIN,
        };
        self.state = next;

        match self.state {
            TokenState::BEGIN => (ParseResult::RejectedChar, None),
            TokenState::CloseParen => {
                let a1 = match self.arg1 {
                    Some(a) => a,
                    None => 0,
                };
                let a2 = match self.arg2 {
                    Some(a) => a,
                    None => 0,
                };
                let s = self.reset_state();
                self.state = s;
                (ParseResult::ConsumedUpTillNow, Some(Operation::MUL(a1, a2)))
            },
            TokenState::CloseParenDo => {
                self.state = TokenState::BEGIN;
                (ParseResult::ConsumedUpTillNow, Some(Operation::COND(true)))
            },
            TokenState::CloseParenDont => {
                self.state = TokenState::BEGIN;
                (ParseResult::ConsumedUpTillNow, Some(Operation::COND(false)))
            },
            _ => (ParseResult::AcceptedChar, None),
        }
    }

    /// Scans a whole dump with one byte of read-behind: a rejected
    /// byte restarts the scan just after the byte that began the
    /// broken candidate.  Returns every recognised operation in
    /// order.
    pub fn load_string(&mut self, input: &str) -> (r: Vec<Operation>)
        requires
            old(self).wf(),
            old(self).state == TokenState::BEGIN,
        ensures
            final(self).wf(),
            forall|k: int|
                0 <= k < r.len() ==> (#[trigger] r[k] matches Operation::MUL(a, b) ==> 0 <= a
                    <= 999 && 0 <= b <= 999),
    {
        let bytes = input.as_bytes();
        let n = bytes.len();
        let mut ops: Vec<Operation> = Vec::new();
        let mut read_behind: Vec<u8> = Vec::new();
        let mut src: usize = 0;
        let mut i: usize = 0;

        loop
            invariant
                self.wf(),
                src <= n,
                n == bytes@.len(),
                i <= read_behind.len(),
                read_behind.len() <= src,
                i == 0 ==> self.state == TokenState::BEGIN,
                forall|k: int|
                    0 <= k < ops.len() ==> (#[trigger] ops[k] matches Operation::MUL(a, b) ==> 0
                        <= a <= 999 && 0 <= b <= 999),
            ensures
                self.wf(),
                forall|k: int|
                    0 <= k < ops.len() ==> (#[trigger] ops[k] matches Operation::MUL(a, b) ==> 0
                        <= a <= 999 && 0 <= b <= 999),
            decreases (n - src) + read_behind.len(), n - src, read_behind.len() - i,
        {
            if i >= read_behind.len() {
                if src < n {
                    read_behind.push(bytes[src]);
                    src = src + 1;
                } else {
                    break ;
                }
            }
            let c = read_behind[i];
            let (verdict, op) = self.load(c);
            if let Some(o) = op {
                ops.push(o);
            }
            match verdict {
                ParseResult::AcceptedChar => {
                    i = i + 1;
                },
                ParseResult::ConsumedUpTillNow => {
                    read_behind = tail_from(read_behind, i);
                    i = 0;
                },
                ParseResult::RejectedChar => {
                    let _ = read_behind.remove(0);
                    i = 0;
                },
            }
        }

        // simulate the end of the dump
        let (_, op) = self.load(32);
        if let Some(o) = op {
            ops.push(o);
        }
        ops
    }
}

/// The elements of `v` from position `from` on.
fn tail_from(v: Vec<u8>, from: usize) -> (r: Vec<u8>)
    requires
        from <= v.len(),
    ensures
        r@ == v@.skip(from as int),
{
    let mut r: Vec<u8> = Vec::new();
    let mut i = from;
    while i < v.len()
        invariant
            from <= i <= v.len(),
            r@ == v@.subrange(from as int, i as int),
        decreases v.len() - i,
    {
        r.push(v[i]);
        i = i + 1;
    }
    proof {
        assert(r@ =~= v@.skip(from as int));
    }
    r
}

} // verus!
