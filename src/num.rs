use vstd::prelude::*;

verus! {

pub open spec fn is_digit(c: char) -> bool {
    '0' <= c && c <= '9'
}

pub open spec fn digit_value(c: char) -> int {
    (c as int) - ('0' as int)
}

pub open spec fn all_digits(s: Seq<char>) -> bool {
    forall|k: int| 0 <= k < s.len() ==> is_digit(#[trigger] s[k])
}

/// The value of a run of decimal digits, most significant first.
pub open spec fn digits_value(s: Seq<char>) -> int
    decreases s.len(),
{
    if s.len() == 0 {
        0
    } else {
        digits_value(s.drop_last()) * 10 + digit_value(s.last())
    }
}

/// The integer that a decimal literal denotes: an optional sign, then at least one digit.
pub open spec fn literal_value(s: Seq<char>) -> Option<int> {
    if s.len() > 0 && (s[0] == '-' || s[0] == '+') {
        let rest = s.subrange(1, s.len() as int);
        if rest.len() > 0 && all_digits(rest) {
            Some(if s[0] == '-' { -digits_value(rest) } else { digits_value(rest) })
        } else {
            None
        }
    } else if s.len() > 0 && all_digits(s) {
        Some(digits_value(s))
    } else {
        None
    }
}

/// The literal's value where it lies in `[lo, hi]`.
pub open spec fn literal_in_range(s: Seq<char>, lo: int, hi: int) -> Option<int> {
    match literal_value(s) {
        Some(v) => if lo <= v <= hi { Some(v) } else { None },
        None => None,
    }
}

pub open spec fn i64_literal(s: Seq<char>) -> Option<int> {
    literal_in_range(s, i64::MIN as int, i64::MAX as int)
}

/// A cap just above the largest magnitude an `i64` literal can have.
pub const MAGNITUDE_CAP: u64 = 9223372036854775809;

proof fn lemma_digits_value_nonneg(s: Seq<char>)
    requires
        all_digits(s),
    ensures
        digits_value(s) >= 0,
    decreases s.len(),
{
    if s.len() > 0 {
        lemma_digits_value_nonneg(s.drop_last());
    }
}

/// The magnitude of a run of digits, capped at `MAGNITUDE_CAP`.
fn capped_digits(cs: &Vec<char>, start: usize) -> (r: u64)
    requires
        start <= cs@.len(),
        all_digits(cs@.subrange(start as int, cs@.len() as int)),
    ensures
        r as int == if digits_value(cs@.subrange(start as int, cs@.len() as int))
            < MAGNITUDE_CAP as int {
            digits_value(cs@.subrange(start as int, cs@.len() as int))
        } else {
            MAGNITUDE_CAP as int
        },
{
    let ghost d = cs@.subrange(start as int, cs@.len() as int);
    let mut mag: u64 = 0;
    let mut i: usize = start;
    while i < cs.len()
        invariant
            start <= i <= cs@.len(),
            d == cs@.subrange(start as int, cs@.len() as int),
            all_digits(d),
            mag <= MAGNITUDE_CAP,
            mag as int == if digits_value(cs@.subrange(start as int, i as int))
                < MAGNITUDE_CAP as int {
                digits_value(cs@.subrange(start as int, i as int))
            } else {
                MAGNITUDE_CAP as int
            },
        decreases cs@.len() - i,
    {
        let c = cs[i];
        assert(is_digit(d[i - start]));
        let dv = (c as u32 - '0' as u32) as u64;
        let ghost prev = cs@.subrange(start as int, i as int);
        let ghost next = cs@.subrange(start as int, i + 1);
        assert(next.drop_last() =~= prev);
        assert(digits_value(next) == digits_value(prev) * 10 + dv);
        assert(all_digits(prev));
        proof {
            lemma_digits_value_nonneg(prev);
        }
        if mag == MAGNITUDE_CAP {
            assert(digits_value(prev) * 10 + dv >= MAGNITUDE_CAP) by (nonlinear_arith)
                requires
                    digits_value(prev) >= MAGNITUDE_CAP,
                    dv >= 0,
            ;
        } else {
            let m: u128 = mag as u128 * 10 + dv as u128;
            mag = if m < MAGNITUDE_CAP as u128 { m as u64 } else { MAGNITUDE_CAP };
        }
        i = i + 1;
    }
    mag
}

/// Parses a decimal integer literal that fits in an `i64`.
pub fn parse_i64(cs: &Vec<char>) -> (r: Option<i64>)
    ensures
        r matches Some(v) ==> i64_literal(cs@) == Some(v as int),
        r is None ==> i64_literal(cs@) is None,
{
    let n = cs.len();
    if n == 0 {
        return None;
    }
    let signed = cs[0] == '-' || cs[0] == '+';
    let start: usize = if signed { 1 } else { 0 };
    if start >= n {
        return None;
    }
    let mut i: usize = start;
    while i < n
        invariant
            start <= i <= n,
            n == cs@.len(),
            n > 0,
            signed == (cs@[0] == '-' || cs@[0] == '+'),
            start == (if signed { 1int } else { 0int }),
            forall|k: int| start <= k < i ==> is_digit(#[trigger] cs@[k]),
        decreases n - i,
    {
        let c = cs[i];
        if !(c >= '0' && c <= '9') {
            assert(!all_digits(cs@.subrange(start as int, n as int))) by {
                assert(cs@.subrange(start as int, n as int)[i - start] == c);
            }
            assert(!all_digits(cs@)) by {
                assert(!is_digit(cs@[i as int]));
            }
            if signed {
                assert(cs@.subrange(1, n as int) =~= cs@.subrange(start as int, n as int));
            }
            assert(literal_value(cs@) is None);
            return None;
        }
        i = i + 1;
    }
    let ghost rest = cs@.subrange(start as int, n as int);
    assert(all_digits(rest));
    if !signed {
        assert(cs@.subrange(0, n as int) =~= cs@);
    }
    let mag = capped_digits(cs, start);
    proof {
        lemma_digits_value_nonneg(rest);
    }
    if cs[0] == '-' {
        if mag <= 9223372036854775808 {
            let v: i64 = if mag == 9223372036854775808 {
                i64::MIN
            } else {
                -(mag as i64)
            };
            Some(v)
        } else {
            None
        }
    } else {
        if mag <= 9223372036854775807 {
            Some(mag as i64)
        } else {
            None
        }
    }
}

/// Whether `cs` is a decimal integer literal, of any size.
pub fn is_int_literal(cs: &Vec<char>) -> (r: bool)
    ensures
        r == (literal_value(cs@) is Some),
{
    let n = cs.len();
    if n == 0 {
        return false;
    }
    let signed = cs[0] == '-' || cs[0] == '+';
    let start: usize = if signed { 1 } else { 0 };
    if start >= n {
        return false;
    }
    let mut i: usize = start;
    while i < n
        invariant
            start <= i <= n,
            n == cs@.len(),
            n > 0,
            signed == (cs@[0] == '-' || cs@[0] == '+'),
            start == (if signed { 1int } else { 0int }),
            forall|k: int| start <= k < i ==> is_digit(#[trigger] cs@[k]),
        decreases n - i,
    {
        let c = cs[i];
        if !(c >= '0' && c <= '9') {
            assert(!all_digits(cs@.subrange(start as int, n as int))) by {
                assert(cs@.subrange(start as int, n as int)[i - start] == c);
            }
            assert(!all_digits(cs@)) by {
                assert(!is_digit(cs@[i as int]));
            }
            if signed {
                assert(cs@.subrange(1, n as int) =~= cs@.subrange(start as int, n as int));
            }
            return false;
        }
        i = i + 1;
    }
    assert(all_digits(cs@.subrange(start as int, n as int)));
    if !signed {
        assert(cs@.subrange(0, n as int) =~= cs@);
    }
    true
}

} // verus!
