use vstd::prelude::*;
use crate::digits::{span_digits, span_value, lemma_span_prefix};

verus! {

/// A page-ordering rule: the lesser page must be printed before the
/// greater one whenever both occur.
#[derive(Debug, Clone, Copy, PartialEq, Eq, Structural)]
pub struct OrderingRule {
    pub lesser: i32,
    pub greater: i32,
}

pub type Update = Vec<i32>;

/// The first position of `v` in the update, scanning left to right.
pub fn first_index(update: &Update, v: i32) -> (r: Option<usize>)
    ensures
        match r {
            Some(i) => i < update.len() && update[i as int] == v && forall|j: int|
                0 <= j < i ==> update[j] != v,
            None => forall|j: int| 0 <= j < update.len() ==> update[j] != v,
        },
{
    let mut i: usize = 0;
    let n = update.len();
    while i < n
        invariant
            i <= n,
            n == update.len(),
            forall|j: int| 0 <= j < i ==> update[j] != v,
        decreases n - i,
    {
        if update[i] == v {
            return Some(i);
        }
        i = i + 1;
    }
    None
}

/// Position `i` holds the first occurrence of `v` in the update.
pub open spec fn is_first_at(u: Seq<i32>, v: i32, i: int) -> bool {
    &&& 0 <= i < u.len()
    &&& u[i] == v
    &&& forall|j: int| 0 <= j < i ==> u[j] != v
}

/// The rule holds of the update: when both its pages occur, the
/// lesser one occurs first.
pub open spec fn spec_rule_ok(u: Seq<i32>, rule: OrderingRule) -> bool {
    forall|li: int, gi: int|
        #![trigger is_first_at(u, rule.lesser, li), is_first_at(u, rule.greater, gi)]
        is_first_at(u, rule.lesser, li) && is_first_at(u, rule.greater, gi) ==> li < gi
}

/// Whether every rule that matches the update (both pages present)
/// already lists its lesser page first.
pub fn update_is_valid(update: &Update, rules: &Vec<OrderingRule>) -> (r: bool)
    ensures
        r == forall|ri: int| 0 <= ri < rules.len() ==> spec_rule_ok(update@, #[trigger] rules[ri]),
{
    let mut ri: usize = 0;
    let n = rules.len();
    while ri < n
        invariant
            ri <= n,
            n == rules.len(),
            forall|k: int| 0 <= k < ri ==> spec_rule_ok(update@, #[trigger] rules[k]),
        decreases n - ri,
    {
        let rule = rules[ri];
        let li_opt = first_index(update, rule.lesser);
        let gi_opt = first_index(update, rule.greater);
        match (li_opt, gi_opt) {
            (Some(li), Some(gi)) => {
                if li >= gi {
                    proof {
                        assert(is_first_at(update@, rule.lesser, li as int));
                        assert(is_first_at(update@, rule.greater, gi as int));
                        assert(!spec_rule_ok(update@, rules[ri as int]));
                    }
                    return false;
                }
                proof {
                    // first occurrences are unique, so the found
                    // positions are the only witnesses
                    assert forall|li2: int, gi2: int|
                        #![trigger is_first_at(update@, rule.lesser, li2),
                            is_first_at(update@, rule.greater, gi2)]
                        is_first_at(update@, rule.lesser, li2) && is_first_at(
                            update@, rule.greater, gi2) implies li2 < gi2 by {
                        assert(li2 == li) by {
                            if li2 < li {
                                assert(update@[li2] == rule.lesser);
                            }
                            if li2 > li {
                                assert(update@[li as int] == rule.lesser);
                            }
                        }
                        assert(gi2 == gi) by {
                            if gi2 < gi {
                                assert(update@[gi2] == rule.greater);
                            }
                            if gi2 > gi {
                                assert(update@[gi as int] == rule.greater);
                            }
                        }
                    }
                    assert(spec_rule_ok(update@, rules[ri as int]));
                }
            },
            _ => {
                proof {
                    // one of the pages never occurs, so the rule
                    // holds of this update for want of witnesses
                    assert forall|li2: int, gi2: int|
                        #![trigger is_first_at(update@, rule.lesser, li2),
                            is_first_at(update@, rule.greater, gi2)]
                        is_first_at(update@, rule.lesser, li2) && is_first_at(
                            update@, rule.greater, gi2) implies li2 < gi2 by {
                        if li_opt is None {
                            assert(update@[li2] != rule.lesser);
                        } else {
                            assert(update@[gi2] != rule.greater);
                        }
                    }
                    assert(spec_rule_ok(update@, rules[ri as int]));
                }
            },
        }
        ri = ri + 1;
    }
    true
}

/// How the matched rules order two pages: the lesser page of the
/// first rule mentioning both comes first; unrelated pages tie.
fn pages_less(a: i32, b: i32, rules: &Vec<OrderingRule>) -> (r: bool)
{
    let mut ri: usize = 0;
    let n = rules.len();
    while ri < n
        invariant
            ri <= n,
            n == rules.len(),
        decreases n - ri,
    {
        let rule = rules[ri];
        if a == rule.lesser && b == rule.greater {
            return true;
        }
        if b == rule.lesser && a == rule.greater {
            return false;
        }
        ri = ri + 1;
    }
    false
}

/// Reorders the update by repeatedly bubbling rule-ordered pages
/// forward; the result holds exactly the same pages.
fn sort_by_rules(update: &Update, rules: &Vec<OrderingRule>) -> (r: Update)
    ensures
        r.len() == update.len(),
        r@.to_multiset() == update@.to_multiset(),
{
    let n = update.len();
    let mut sorted: Update = Vec::new();
    let mut k: usize = 0;
    while k < n
        invariant
            k <= n,
            n == update.len(),
            sorted.len() == k,
            sorted@ == update@.subrange(0, k as int),
        decreases n - k,
    {
        sorted.push(update[k]);
        k = k + 1;
    }
    proof {
        assert(sorted@ =~= update@);
    }
    let mut pass: usize = 0;
    while pass < n
        invariant
            sorted.len() == n,
            sorted@.to_multiset() == update@.to_multiset(),
        decreases n - pass,
    {
        let limit: usize = if n > 0 {
            n - 1
        } else {
            0
        };
        let mut i: usize = 0;
        while i < limit
            invariant
                sorted.len() == n,
                limit < n || (limit == 0 && n == 0),
                i <= limit,
                sorted@.to_multiset() == update@.to_multiset(),
            decreases limit - i,
        {
            if pages_less(sorted[i + 1], sorted[i], rules) {
                let ghost before = sorted@;
                let a = sorted[i];
                let b = sorted[i + 1];
                sorted.set(i, b);
                sorted.set(i + 1, a);
                proof {
                    lemma_swap_keeps_multiset(before, i as int, i + 1);
                    assert(sorted@ == before.update(i as int, before[i + 1]).update(
                        i + 1, before[i as int]));
                    assert(sorted@.to_multiset() =~= before.to_multiset());
                }
            }
            i = i + 1;
        }
        pass = pass + 1;
    }
    sorted
}

/// The middle page of an odd-length update.
fn middle_of(update: &Update) -> (r: i32)
    requires
        update.len() % 2 == 1,
    ensures
        r == update[(update.len() / 2) as int],
{
    update[update.len() / 2]
}

/// Parses a decimal i32 from the bytes between two positions.
fn parse_i32(bytes: &[u8], from: usize, to: usize) -> (r: Result<i32, String>)
    requires
        from <= to <= bytes@.len(),
    ensures
        r is Ok <==> {
            let s = bytes@.subrange(from as int, to as int);
            s.len() > 0 && span_digits(s) && span_value(s) <= i32::MAX
        },
        r matches Ok(x) ==> x == span_value(bytes@.subrange(from as int, to as int)),
{
    let ghost s = bytes@.subrange(from as int, to as int);
    if from == to {
        return Err("empty number".to_owned());
    }
    let mut value: i32 = 0;
    let mut i = from;
    while i < to
        invariant
            from <= i <= to,
            to <= bytes@.len(),
            s == bytes@.subrange(from as int, to as int),
            span_digits(s.take(i - from)),
            value == span_value(s.take(i - from)),
            0 <= value,
        decreases to - i,
    {
        let b = bytes[i];
        proof {
            assert(s[i - from] == bytes@[i as int]);
        }
        if b < 48 || b > 57 {
            proof {
                assert(!(48 <= s[i - from] <= 57));
                assert(!span_digits(s));
            }
            return Err("not a number".to_owned());
        }
        proof {
            assert(s.take(i - from + 1).drop_last() =~= s.take(i - from));
            assert(s.take(i - from + 1).last() == s[i - from]);
            assert(span_digits(s.take(i - from + 1)));
            assert(span_value(s.take(i - from + 1)) == span_value(s.take(i - from)) * 10 + (s[i
                - from] - 48));
        }
        value = match value.checked_mul(10) {
            Some(v) => match v.checked_add((b - 48) as i32) {
                Some(w) => w,
                None => {
                    proof {
                        if span_digits(s) {
                            lemma_span_prefix(s, i - from + 1);
                        }
                    }
                    return Err("number is too large".to_owned());
                },
            },
            None => {
                proof {
                    if span_digits(s) {
                        lemma_span_prefix(s, i - from + 1);
                    }
                }
                return Err("number is too large".to_owned());
            },
        };
        i = i + 1;
    }
    proof {
        assert(s.take(to - from) =~= s);
    }
    Ok(value)
}

/// Sums the middle pages of the correctly ordered updates (part 1) or
/// of the incorrectly ordered updates after reordering them by the
/// rules (part 2).  The input lists `a|b` rules, a blank line, then
/// comma-separated updates; anything else is an error, as is an
/// even-length update.
pub fn run_on_string(input: &str, part: u8) -> (r: Result<i32, String>)
{
    let bytes = input.as_bytes();
    let n = bytes.len();

    let mut rules: Vec<OrderingRule> = Vec::new();
    let mut updates: Vec<Update> = Vec::new();

    let mut in_rules = true;
    let mut line_start: usize = 0;
    let mut i: usize = 0;
    while i <= n
        invariant
            line_start <= i,
            i <= n,
            n == bytes@.len(),
        decreases n + 1 - i,
    {
        if i == n || bytes[i] == 10 {
            if line_start == i {
                // a blank line separates rules from updates
                in_rules = false;
            } else if in_rules {
                match parse_rule(bytes, line_start, i) {
                    Ok(rule) => {
                        rules.push(rule);
                    },
                    Err(e) => {
                        return Err(e);
                    },
                }
            } else {
                match parse_update(bytes, line_start, i) {
                    Ok(update) => {
                        updates.push(update);
                    },
                    Err(e) => {
                        return Err(e);
                    },
                }
            }
            if i < n {
                line_start = i + 1;
            }
        }
        if i == n {
            break ;
        }
        i = i + 1;
    }

    let mut total: i32 = 0;
    let mut ui: usize = 0;
    while ui < updates.len()
        invariant
            ui <= updates.len(),
        decreases updates.len() - ui,
    {
        let update = &updates[ui];
        let valid = update_is_valid(update, &rules);
        let chosen: Option<Update> = if part == 1 && valid {
            let mut copy: Update = Vec::new();
            let mut k: usize = 0;
            while k < update.len()
                invariant
                    k <= update.len(),
                decreases update.len() - k,
            {
                copy.push(update[k]);
                k = k + 1;
            }
            Some(copy)
        } else if part != 1 && !valid {
            Some(sort_by_rules(update, &rules))
        } else {
            None
        };
        if let Some(pages) = chosen {
            if pages.len() % 2 == 0 {
                return Err("an update has no middle page".to_owned());
            }
            let mid = middle_of(&pages);
            total = match total.checked_add(mid) {
                Some(t) => t,
                None => {
                    return Err("page total overflowed".to_owned());
                },
            };
        }
        ui = ui + 1;
    }
    Ok(total)
}

/// Parses one `lesser|greater` rule line.
fn parse_rule(bytes: &[u8], from: usize, to: usize) -> (r: Result<OrderingRule, String>)
    requires
        from <= to <= bytes@.len(),
{
    let mut sep = from;
    while sep < to && bytes[sep] != 124
        invariant
            from <= sep <= to,
            to <= bytes@.len(),
        decreases to - sep,
    {
        sep = sep + 1;
    }
    if sep == to {
        return Err("expected two pages separated by a bar".to_owned());
    }
    let lesser = match parse_i32(bytes, from, sep) {
        Ok(v) => v,
        Err(e) => {
            return Err(e);
        },
    };
    let greater = match parse_i32(bytes, sep + 1, to) {
        Ok(v) => v,
        Err(e) => {
            return Err(e);
        },
    };
    Ok(OrderingRule { lesser, greater })
}

/// Parses one comma-separated update line.
fn parse_update(bytes: &[u8], from: usize, to: usize) -> (r: Result<Update, String>)
    requires
        from <= to <= bytes@.len(),
{
    let mut update: Update = Vec::new();
    let mut start = from;
    let mut i = from;
    while i <= to
        invariant
            from <= start <= i,
            i <= to,
            to <= bytes@.len(),
        decreases to + 1 - i,
    {
        if i == to || bytes[i] == 44 {
            match parse_i32(bytes, start, i) {
                Ok(v) => {
                    update.push(v);
                },
                Err(e) => {
                    return Err(e);
                },
            }
            if i < to {
                start = i + 1;
            }
        }
        if i == to {
            break ;
        }
        i = i + 1;
    }
    Ok(update)
}


/// Overwriting one position exchanges exactly that element in the
/// sequence's multiset.
proof fn lemma_update_multiset(t: Seq<i32>, i: int, x: i32)
    requires
        0 <= i < t.len(),
    ensures
        t.update(i, x).to_multiset() =~= t.to_multiset().remove(t[i]).insert(x),
{
    let u = t.update(i, x);
    t.to_multiset_ensures();
    u.to_multiset_ensures();
    assert(u.remove(i) =~= t.remove(i));
    assert(u.remove(i).to_multiset() =~= u.to_multiset().remove(u[i]));
    assert(t.remove(i).to_multiset() =~= t.to_multiset().remove(t[i]));
    assert(u.to_multiset().remove(x) =~= t.to_multiset().remove(t[i]));
    assert(u.contains(x));
    assert(u.to_multiset().count(x) > 0);
    assert forall|y: i32|
        u.to_multiset().count(y) == t.to_multiset().remove(t[i]).insert(x).count(y) by {
        if y == x {
            assert(u.to_multiset().remove(x).count(x) == u.to_multiset().count(x) - 1);
        } else {
            assert(u.to_multiset().remove(x).count(y) == u.to_multiset().count(y));
        }
    }
}

/// Exchanging two positions leaves the sequence's multiset alone.
proof fn lemma_swap_keeps_multiset(s: Seq<i32>, i: int, j: int)
    requires
        0 <= i < j < s.len(),
    ensures
        s.update(i, s[j]).update(j, s[i]).to_multiset() =~= s.to_multiset(),
{
    let a = s[i];
    let b = s[j];
    let su = s.update(i, b);
    let s2 = su.update(j, a);
    lemma_update_multiset(s, i, b);
    lemma_update_multiset(su, j, a);
    assert(su[j] == b);
    s.to_multiset_ensures();
    assert(s.contains(a) && s.contains(b));
    assert forall|y: i32| s2.to_multiset().count(y) == s.to_multiset().count(y) by {
        assert(s2.to_multiset() =~= su.to_multiset().remove(b).insert(a));
        assert(su.to_multiset() =~= s.to_multiset().remove(a).insert(b));
    }
}

} // verus!
