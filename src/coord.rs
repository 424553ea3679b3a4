//! Fixed-point coordinates and the numeric tokens of path data.
//!
//! A coordinate is an `i128` counting billionths of a unit: the decimal
//! `12.5` is held as `12_500_000_000`. A numeric token is an optional sign,
//! decimal digits and an optional fraction; fraction digits past the ninth
//! are dropped (truncation towards zero) and an integer part of a billion
//! or more does not fit.

use vstd::prelude::*;

verus! {

/// A fixed-point number: the count of billionths of a unit.
pub type Coord = i128;

/// Billionths in one unit.
pub const SCALE: i128 = 1_000_000_000;

/// Fraction digits that a coordinate keeps.
pub const FRACTION_DIGITS: usize = 9;

/// Exclusive bound on the integer part of a numeric token.
pub const INTEGER_LIMIT: i128 = 1_000_000_000;

/// Exclusive bound on the magnitude of a parsed number (in billionths).
pub open spec fn number_limit() -> int {
    INTEGER_LIMIT * SCALE
}

pub open spec fn is_digit(c: char) -> bool {
    '0' <= c && c <= '9'
}

pub open spec fn digit_value(c: char) -> int {
    c as int - '0' as int
}

pub open spec fn all_digits(d: Seq<char>) -> bool {
    forall|i: int| 0 <= i < d.len() ==> is_digit(#[trigger] d[i])
}

/// The natural number that a string of decimal digits denotes.
pub open spec fn digits_value(d: Seq<char>) -> int
    decreases d.len(),
{
    if d.len() == 0 {
        0
    } else {
        digits_value(d.drop_last()) * 10 + digit_value(d.last())
    }
}

pub open spec fn pow10(n: nat) -> int
    decreases n,
{
    if n == 0 {
        1
    } else {
        10 * pow10((n - 1) as nat)
    }
}

/// The first nine digits of a fraction, in billionths.
pub open spec fn fraction_value(f: Seq<char>) -> int {
    let k = if f.len() < 9 { f.len() } else { 9 };
    digits_value(f.take(k as int)) * pow10((9 - k) as nat)
}

/// Index of the first `'.'` in `t`, or its length when there is none.
pub open spec fn dot_index(t: Seq<char>) -> int
    decreases t.len(),
{
    if t.len() == 0 {
        0
    } else if t[0] == '.' {
        0
    } else {
        1 + dot_index(t.drop_first())
    }
}

pub open spec fn has_sign(t: Seq<char>) -> bool {
    t.len() > 0 && (t[0] == '-' || t[0] == '+')
}

/// The unsigned part of a token.
pub open spec fn unsigned_part(t: Seq<char>) -> Seq<char> {
    if has_sign(t) {
        t.drop_first()
    } else {
        t
    }
}

pub open spec fn integer_digits(t: Seq<char>) -> Seq<char> {
    let u = unsigned_part(t);
    u.take(dot_index(u))
}

pub open spec fn fraction_digits(t: Seq<char>) -> Seq<char> {
    let u = unsigned_part(t);
    if dot_index(u) < u.len() {
        u.skip(dot_index(u) + 1)
    } else {
        Seq::empty()
    }
}

/// The value of a numeric token, in billionths, or `None` when the token is
/// not a number or its integer part does not fit.
pub open spec fn number_value(t: Seq<char>) -> Option<int> {
    let i = integer_digits(t);
    let f = fraction_digits(t);
    if !all_digits(i) || !all_digits(f) || i.len() + f.len() == 0 || digits_value(i)
        >= INTEGER_LIMIT {
        None
    } else {
        let m = digits_value(i) * SCALE + fraction_value(f);
        Some(if has_sign(t) && t[0] == '-' { -m } else { m })
    }
}

proof fn lemma_digits_value_nonneg(d: Seq<char>)
    requires
        all_digits(d),
    ensures
        digits_value(d) >= 0,
    decreases d.len(),
{
    if d.len() > 0 {
        assert(all_digits(d.drop_last()));
        lemma_digits_value_nonneg(d.drop_last());
    }
}

proof fn lemma_pow10_small(n: nat)
    requires
        n <= 9,
    ensures
        1 <= pow10(n) <= 1_000_000_000,
        n < 9 ==> pow10(n) <= 100_000_000,
        pow10(9) == SCALE,
{
    reveal_with_fuel(pow10, 10);
}

proof fn lemma_dot_index_at(u: Seq<char>, k: int)
    requires
        0 <= k <= u.len(),
        forall|j: int| 0 <= j < k ==> u[j] != '.',
        k == u.len() || u[k] == '.',
    ensures
        dot_index(u) == k,
    decreases k,
{
    if k > 0 {
        lemma_dot_index_at(u.drop_first(), k - 1);
    }
}

/// The index of the first `'.'` in `t[start..end]`, or `end`.
fn find_dot(t: &Vec<char>, start: usize, end: usize) -> (k: usize)
    requires
        start <= end <= t.len(),
    ensures
        start <= k <= end,
        k - start == dot_index(t@.subrange(start as int, end as int)),
{
    let ghost u = t@.subrange(start as int, end as int);
    let mut i: usize = start;
    while i < end && t[i] != '.'
        invariant
            start <= i <= end <= t.len(),
            forall|j: int| start <= j < i ==> t@[j] != '.',
        decreases end - i,
    {
        i = i + 1;
    }
    proof {
        assert(forall|j: int| 0 <= j < i - start ==> u[j] == t@[start + j]);
        lemma_dot_index_at(u, i - start);
    }
    i
}

/// The value of the integer digits `t[start..end]`, or `None` when one is
/// not a digit or the value reaches [`INTEGER_LIMIT`].
fn integer_part(t: &Vec<char>, start: usize, end: usize) -> (r: Option<i128>)
    requires
        start <= end <= t.len(),
    ensures
        ({
            let d = t@.subrange(start as int, end as int);
            match r {
                Some(v) => all_digits(d) && 0 <= v < INTEGER_LIMIT && v == digits_value(d),
                None => !all_digits(d) || digits_value(d) >= INTEGER_LIMIT,
            }
        }),
{
    let mut i: usize = start;
    let mut value: i128 = 0;
    let mut too_large = false;
    while i < end
        invariant
            start <= i <= end <= t.len(),
            all_digits(t@.subrange(start as int, i as int)),
            too_large <==> digits_value(t@.subrange(start as int, i as int)) >= INTEGER_LIMIT,
            !too_large ==> value == digits_value(t@.subrange(start as int, i as int)),
            0 <= value < INTEGER_LIMIT,
        decreases end - i,
    {
        let c = t[i];
        if !('0' <= c && c <= '9') {
            assert(t@.subrange(start as int, end as int)[i - start] == c);
            return None;
        }
        let ghost before = t@.subrange(start as int, i as int);
        let ghost after = t@.subrange(start as int, i + 1);
        assert(after.drop_last() =~= before);
        proof {
            lemma_digits_value_nonneg(before);
        }
        if !too_large {
            let d = (c as u32 - '0' as u32) as i128;
            if value * 10 + d >= INTEGER_LIMIT {
                too_large = true;
            } else {
                value = value * 10 + d;
            }
        }
        i = i + 1;
        assert(all_digits(after)) by {
            assert forall|j: int| 0 <= j < after.len() implies is_digit(#[trigger] after[j]) by {
                if j < before.len() {
                    assert(after[j] == before[j]);
                }
            }
        }
    }
    if too_large {
        None
    } else {
        Some(value)
    }
}

/// The value in billionths of the fraction digits `t[start..end]`, or
/// `None` when one is not a digit.
fn fraction_part(t: &Vec<char>, start: usize, end: usize) -> (r: Option<i128>)
    requires
        start <= end <= t.len(),
    ensures
        ({
            let d = t@.subrange(start as int, end as int);
            match r {
                Some(v) => all_digits(d) && v == fraction_value(d) && 0 <= v < SCALE,
                None => !all_digits(d),
            }
        }),
{
    let ghost fr = t@.subrange(start as int, end as int);
    let mut i: usize = start;
    let mut value: i128 = 0;
    let mut kept: usize = 0;
    proof {
        lemma_pow10_small(0);
        assert(fr.take(0) =~= Seq::<char>::empty());
    }
    while i < end
        invariant
            start <= i <= end <= t.len(),
            fr == t@.subrange(start as int, end as int),
            all_digits(t@.subrange(start as int, i as int)),
            kept == if i - start < 9 { i - start } else { 9 },
            value == digits_value(fr.take(kept as int)),
            0 <= value < pow10(kept as nat),
        decreases end - i,
    {
        let c = t[i];
        if !('0' <= c && c <= '9') {
            assert(fr[i - start] == c);
            return None;
        }
        if kept < FRACTION_DIGITS {
            let ghost before = fr.take(kept as int);
            let ghost after = fr.take(kept + 1);
            assert(after.drop_last() =~= before);
            proof {
                lemma_pow10_small(kept as nat);
                lemma_pow10_small((kept + 1) as nat);
                assert(pow10((kept + 1) as nat) == 10 * pow10(kept as nat));
            }
            let d = (c as u32 - '0' as u32) as i128;
            value = value * 10 + d;
            kept = kept + 1;
        }
        let ghost before = t@.subrange(start as int, i as int);
        i = i + 1;
        assert(all_digits(t@.subrange(start as int, i as int))) by {
            let after = t@.subrange(start as int, i as int);
            assert forall|j: int| 0 <= j < after.len() implies is_digit(#[trigger] after[j]) by {
                if j < before.len() {
                    assert(after[j] == before[j]);
                }
            }
        }
    }
    let mut scaled = value;
    let mut k: usize = kept;
    assert(pow10(0) == 1);
    assert(value * pow10(0) == value);
    while k < FRACTION_DIGITS
        invariant
            kept <= k <= 9,
            scaled == value * pow10((k - kept) as nat),
            0 <= scaled < pow10(k as nat),
            0 <= value,
        decreases 9 - k,
    {
        proof {
            lemma_pow10_small(k as nat);
            lemma_pow10_small((k + 1) as nat);
            let m = (k - kept) as nat;
            assert(pow10(m + 1) == 10 * pow10(m));
            assert(pow10((k + 1) as nat) == 10 * pow10(k as nat));
            assert(value * (10 * pow10(m)) == (value * pow10(m)) * 10) by (nonlinear_arith);
        }
        scaled = scaled * 10;
        k = k + 1;
    }
    proof {
        lemma_pow10_small(9);
    }
    Some(scaled)
}

/// Parses the numeric token `t[start..end]` into a coordinate.
pub fn parse_number(t: &Vec<char>, start: usize, end: usize) -> (r: Option<Coord>)
    requires
        start <= end <= t.len(),
    ensures
        match number_value(t@.subrange(start as int, end as int)) {
            Some(v) => r matches Some(x) && x as int == v,
            None => r is None,
        },
        r matches Some(v) ==> -number_limit() < v < number_limit(),
{
    let ghost tok = t@.subrange(start as int, end as int);
    let mut i: usize = start;
    let mut negative = false;
    if i < end && (t[i] == '-' || t[i] == '+') {
        negative = t[i] == '-';
        i = i + 1;
    }
    assert(unsigned_part(tok) =~= t@.subrange(i as int, end as int));
    let dot = find_dot(t, i, end);
    assert(integer_digits(tok) =~= t@.subrange(i as int, dot as int));
    let frac_start = if dot < end { dot + 1 } else { end };
    assert(fraction_digits(tok) =~= t@.subrange(frac_start as int, end as int));
    if dot == i && frac_start == end {
        return None;
    }
    let int_value = match integer_part(t, i, dot) {
        Some(v) => v,
        None => { return None; },
    };
    let frac_value = match fraction_part(t, frac_start, end) {
        Some(v) => v,
        None => { return None; },
    };
    assert(0 <= int_value * SCALE <= (INTEGER_LIMIT - 1) * SCALE) by (nonlinear_arith)
        requires
            0 <= int_value < INTEGER_LIMIT,
    ;
    let magnitude = int_value * SCALE + frac_value;
    if negative {
        Some(-magnitude)
    } else {
        Some(magnitude)
    }
}

} // verus!
