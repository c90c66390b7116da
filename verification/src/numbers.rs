//! Version codes travel as decimal numerals in the lock file and as `u32` in
//! memory. This module reads and writes those numerals with exact contracts,
//! including the storage rule that an unparsable stored value counts as 0.

use vstd::prelude::*;

verus! {

pub open spec fn spec_is_digit(c: char) -> bool {
    '0' <= c && c <= '9'
}

pub open spec fn spec_digit_val(c: char) -> int {
    c as int - '0' as int
}

/// A non-empty run of decimal digits.
pub open spec fn spec_is_digits(s: Seq<char>) -> bool {
    s.len() > 0 && forall|i: int| 0 <= i < s.len() ==> spec_is_digit(#[trigger] s[i])
}

/// Numeric value of a digit run, most significant digit first.
pub open spec fn spec_digits_val(s: Seq<char>) -> int
    decreases s.len(),
{
    if s.len() == 0 {
        0
    } else {
        spec_digits_val(s.drop_last()) * 10 + spec_digit_val(s.last())
    }
}

/// An unsigned numeral as stored version codes are read: an optional leading
/// `+`, then at least one decimal digit.
pub open spec fn spec_is_numeral(s: Seq<char>) -> bool {
    spec_is_digits(s) || (s.len() > 0 && s[0] == '+' && spec_is_digits(s.skip(1)))
}

pub open spec fn spec_numeral_digits(s: Seq<char>) -> Seq<char> {
    if s.len() > 0 && s[0] == '+' {
        s.skip(1)
    } else {
        s
    }
}

/// What a stored version code means numerically: its value when it is a
/// numeral that fits in a `u32`, and 0 otherwise.
pub open spec fn spec_parse_u32_or_zero(s: Seq<char>) -> u32 {
    if spec_is_numeral(s) && spec_digits_val(spec_numeral_digits(s)) <= u32::MAX {
        spec_digits_val(spec_numeral_digits(s)) as u32
    } else {
        0u32
    }
}

pub proof fn lemma_digits_val_nonneg(s: Seq<char>)
    requires
        forall|i: int| 0 <= i < s.len() ==> spec_is_digit(#[trigger] s[i]),
    ensures
        spec_digits_val(s) >= 0,
    decreases s.len(),
{
    if s.len() > 0 {
        lemma_digits_val_nonneg(s.drop_last());
    }
}

/// A digit run's value only grows as more digits are appended.
pub proof fn lemma_digits_val_prefix_le(s: Seq<char>, k: int)
    requires
        0 <= k <= s.len(),
        forall|i: int| 0 <= i < s.len() ==> spec_is_digit(#[trigger] s[i]),
    ensures
        spec_digits_val(s.take(k)) <= spec_digits_val(s),
    decreases s.len(),
{
    if k < s.len() {
        assert(s.drop_last().take(k) =~= s.take(k));
        lemma_digits_val_prefix_le(s.drop_last(), k);
        lemma_digits_val_nonneg(s.drop_last());
    } else {
        assert(s.take(k) =~= s);
    }
}

/// Reads an unsigned numeral. Returns the value exactly when the text is a
/// numeral whose value fits in a `u32`.
pub fn parse_u32(s: &str) -> (r: Option<u32>)
    ensures
        r is Some <==> spec_is_numeral(s@) && spec_digits_val(spec_numeral_digits(s@))
            <= u32::MAX,
        r is Some ==> r->Some_0 == spec_digits_val(spec_numeral_digits(s@)),
{
    let n = s.unicode_len();
    let mut start: usize = 0;
    if n > 0 && s.get_char(0) == '+' {
        start = 1;
    }
    let ghost digs = spec_numeral_digits(s@);
    proof {
        assert(digs =~= s@.subrange(start as int, n as int));
    }
    if n == start {
        return None;
    }
    let mut acc: u32 = 0;
    let mut i = start;
    while i < n
        invariant
            start <= i <= n,
            n == s@.len(),
            start == 1 ==> s@[0] == '+',
            start == 0 || start == 1,
            digs == spec_numeral_digits(s@),
            digs =~= s@.subrange(start as int, n as int),
            n > start,
            forall|j: int| start <= j < i ==> spec_is_digit(#[trigger] s@[j]),
            acc == spec_digits_val(s@.subrange(start as int, i as int)),
        decreases n - i,
    {
        let c = s.get_char(i);
        if !('0' <= c && c <= '9') {
            proof {
                assert(digs[i - start] == s@[i as int]);
                assert(!spec_is_digits(digs));
            }
            return None;
        }
        let d: u32 = c as u32 - '0' as u32;
        if acc > (u32::MAX - d) / 10 {
            proof {
                let q = ((u32::MAX - d) / 10) as int;
                vstd::arithmetic::div_mod::lemma_fundamental_div_mod(
                    u32::MAX - d,
                    10,
                );
                vstd::arithmetic::div_mod::lemma_remainder_upper(u32::MAX - d, 10);
                assert(acc * 10 >= (q + 1) * 10) by (nonlinear_arith)
                    requires
                        acc >= q + 1,
                ;
                assert(acc * 10 + d > u32::MAX);
                let pre = s@.subrange(start as int, i as int + 1);
                assert(pre.drop_last() =~= s@.subrange(start as int, i as int));
                assert(spec_digits_val(pre) == acc * 10 + d);
                if spec_is_numeral(s@) {
                    assert(digs.take(i - start + 1) =~= pre);
                    lemma_digits_val_prefix_le(digs, i - start + 1);
                }
            }
            return None;
        }
        proof {
            let q = ((u32::MAX - d) / 10) as int;
            vstd::arithmetic::div_mod::lemma_fundamental_div_mod(u32::MAX - d, 10);
            vstd::arithmetic::div_mod::lemma_remainder_upper(u32::MAX - d, 10);
            assert(acc * 10 <= q * 10) by (nonlinear_arith)
                requires
                    acc <= q,
            ;
            let pre = s@.subrange(start as int, i as int + 1);
            assert(pre.drop_last() =~= s@.subrange(start as int, i as int));
        }
        acc = acc * 10 + d;
        i = i + 1;
    }
    proof {
        assert(s@.subrange(start as int, n as int) =~= digs);
        assert(spec_is_digits(digs));
        if start == 1 {
            assert(spec_is_numeral(s@));
        }
    }
    Some(acc)
}

/// Reads a stored version code: the numeral's value, or 0 when the text is
/// not a numeral that fits in a `u32`.
pub fn parse_u32_or_zero(s: &str) -> (r: u32)
    ensures
        r == spec_parse_u32_or_zero(s@),
{
    match parse_u32(s) {
        Some(v) => v,
        None => 0,
    }
}

pub open spec fn spec_digit_char(d: int) -> char {
    if d == 0 { '0' }
    else if d == 1 { '1' }
    else if d == 2 { '2' }
    else if d == 3 { '3' }
    else if d == 4 { '4' }
    else if d == 5 { '5' }
    else if d == 6 { '6' }
    else if d == 7 { '7' }
    else if d == 8 { '8' }
    else { '9' }
}

/// The decimal digits of `n`, most significant first, no sign and no leading
/// zero except for `n == 0` itself.
pub open spec fn spec_u32_digits(n: int) -> Seq<char>
    decreases n,
{
    if n < 10 {
        seq![spec_digit_char(n)]
    } else {
        spec_u32_digits(n / 10).push(spec_digit_char(n % 10))
    }
}

fn digit_str(d: u32) -> (r: &'static str)
    requires
        d < 10,
    ensures
        r@ =~= seq![spec_digit_char(d as int)],
{
    proof {
        reveal_strlit("0");
        reveal_strlit("1");
        reveal_strlit("2");
        reveal_strlit("3");
        reveal_strlit("4");
        reveal_strlit("5");
        reveal_strlit("6");
        reveal_strlit("7");
        reveal_strlit("8");
        reveal_strlit("9");
    }
    match d {
        0 => "0",
        1 => "1",
        2 => "2",
        3 => "3",
        4 => "4",
        5 => "5",
        6 => "6",
        7 => "7",
        8 => "8",
        _ => "9",
    }
}

/// Writes `n` in decimal, as version codes are stored.
pub fn u32_to_string(n: u32) -> (r: String)
    ensures
        r@ == spec_u32_digits(n as int),
    decreases n,
{
    if n < 10 {
        digit_str(n).to_owned()
    } else {
        let mut prefix = u32_to_string(n / 10);
        prefix.append(digit_str(n % 10));
        prefix
    }
}

/// A version code written to storage reads back as itself: the decimal digits
/// of `n` are a numeral whose stored meaning is exactly `n`.
pub proof fn lemma_version_code_round_trip(n: u32)
    ensures
        spec_is_digits(spec_u32_digits(n as int)),
        spec_digits_val(spec_u32_digits(n as int)) == n,
        spec_parse_u32_or_zero(spec_u32_digits(n as int)) == n,
    decreases n,
{
    let ds = spec_u32_digits(n as int);
    if n < 10 {
        assert(ds.len() == 1);
        assert(ds.last() == spec_digit_char(n as int));
        assert(ds.drop_last() =~= Seq::<char>::empty());
        assert(spec_digits_val(ds.drop_last()) == 0);
        assert(spec_digits_val(ds) == spec_digit_val(spec_digit_char(n as int)));
    } else {
        lemma_version_code_round_trip(n / 10);
        let hi = spec_u32_digits(n as int / 10);
        assert(ds.drop_last() =~= hi);
        assert(spec_digit_val(ds.last()) == n as int % 10);
        vstd::arithmetic::div_mod::lemma_fundamental_div_mod(n as int, 10);
    }
    assert(!spec_is_digit('+'));
    assert(spec_numeral_digits(ds) =~= ds);
}

} // verus!
