use vstd::prelude::*;

verus! {

/// One instruction the elvish machine language understands: a
/// multiplication of two arguments, or a toggle of whether
/// multiplications count.
#[derive(Debug, PartialEq, Eq, Structural, Clone, Copy)]
pub enum Operation {
    MUL(i32, i32),
    COND(bool),
}

/// Accumulates products of enabled multiplications.
#[derive(Debug, Clone, Copy)]
pub struct ElvishCalculator {
    pub enabled: bool,
    pub result: i32,
}

impl ElvishCalculator {
    /// A fresh calculator: enabled, at zero.
    pub fn new() -> (r: ElvishCalculator)
        ensures
            r.enabled,
            r.result == 0,
    {
        ElvishCalculator { result: 0, enabled: true }
    }

    /// Feeds one instruction: an enabled multiplication adds its
    /// product to the accumulator; a conditional toggles whether
    /// multiplications count.  The caller keeps the sum within the
    /// accumulator's range.
    pub fn enter(&mut self, op: Operation)
        requires
            (op matches Operation::MUL(a1, a2) && old(self).enabled) ==> i32::MIN <= old(
                self,
            ).result + (op->MUL_0 as int) * (op->MUL_1 as int) <= i32::MAX,
        ensures
            match op {
                Operation::MUL(a1, a2) => final(self).enabled == old(self).enabled
                    && final(self).result == (if old(self).enabled {
                    old(self).result + a1 * a2
                } else {
                    old(self).result as int
                }),
                Operation::COND(toggle) => final(self).enabled == toggle && final(self).result
                    == old(self).result,
            },
    {
        match op {
            Operation::MUL(a1, a2) => {
                if self.enabled {
                    let product: i64 = (a1 as i64) * (a2 as i64);
                    let sum: i64 = (self.result as i64) + product;
                    self.result = sum as i32;
                }
            },
            Operation::COND(toggle) => {
                self.enabled = toggle;
            },
        }
    }

    /// The accumulated result.
    pub fn result(&self) -> (r: i32)
        ensures
            r == self.result,
    {
        self.result
    }
}

} // verus!
