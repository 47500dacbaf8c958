use vstd::prelude::*;

verus! {

/// Every byte of the span is a decimal digit.
pub open spec fn span_digits(s: Seq<u8>) -> bool {
    forall|i: int| 0 <= i < s.len() ==> 48 <= #[trigger] s[i] <= 57
}

/// The number the digit bytes spell out.
pub open spec fn span_value(s: Seq<u8>) -> int
    decreases s.len(),
{
    if s.len() == 0 {
        0
    } else {
        span_value(s.drop_last()) * 10 + (s.last() - 48)
    }
}

/// Digit spans spell nonnegative numbers.
pub proof fn lemma_span_nonneg(s: Seq<u8>)
    requires
        span_digits(s),
    ensures
        span_value(s) >= 0,
    decreases s.len(),
{
    if s.len() > 0 {
        assert(span_digits(s.drop_last()));
        lemma_span_nonneg(s.drop_last());
    }
}

/// A digit span spells at least what any prefix of it spells.
pub proof fn lemma_span_prefix(s: Seq<u8>, j: int)
    requires
        span_digits(s),
        0 <= j <= s.len(),
    ensures
        span_value(s) >= span_value(s.take(j)),
    decreases s.len() - j,
{
    if j == s.len() {
        assert(s.take(j) =~= s);
    } else {
        lemma_span_prefix(s, j + 1);
        assert(s.take(j + 1).drop_last() =~= s.take(j));
        assert(s.take(j + 1).last() == s[j]);
        assert(span_digits(s.take(j)));
        lemma_span_nonneg(s.take(j));
        assert(span_value(s.take(j + 1)) == span_value(s.take(j)) * 10 + (s[j] - 48));
        assert(span_value(s.take(j)) * 10 >= span_value(s.take(j))) by (nonlinear_arith)
            requires span_value(s.take(j)) >= 0,
        ;
    }
}

} // verus!
