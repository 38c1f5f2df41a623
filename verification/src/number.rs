//! Decimal integers: reading an `i32` the way `str::parse::<i32>` does, and
//! writing one the way `Display` does.
use vstd::prelude::*;

verus! {

/// An ASCII decimal digit.
pub open spec fn is_digit(c: char) -> bool {
    '0' <= c && c <= '9'
}

/// The value of a decimal digit character.
pub open spec fn digit_value(c: char) -> int {
    c as int - '0' as int
}

/// The character that writes the digit `d` (for `0 <= d < 10`).
pub open spec fn digit_char(d: int) -> char {
    (d + ('0' as int)) as char
}

pub open spec fn all_digits(s: Seq<char>) -> bool {
    forall|i: int| 0 <= i < s.len() ==> is_digit(#[trigger] s[i])
}

/// The value of a string of decimal digits, most significant first.
pub open spec fn digits_value(s: Seq<char>) -> int
    decreases s.len(),
{
    if s.len() == 0 {
        0
    } else {
        digits_value(s.drop_last()) * 10 + digit_value(s.last())
    }
}

/// What `str::parse::<i32>` gives: an optional `+` or `-`, then one digit
/// or more; `None` when the text has another form or the value does not fit.
pub open spec fn spec_parse_i32(s: Seq<char>) -> Option<i32> {
    let signed = s.len() > 0 && (s[0] == '-' || s[0] == '+');
    let digits = if signed { s.drop_first() } else { s };
    let magnitude = digits_value(digits);
    let v = if s.len() > 0 && s[0] == '-' { -magnitude } else { magnitude };
    if digits.len() > 0 && all_digits(digits) && i32::MIN <= v <= i32::MAX {
        Some(v as i32)
    } else {
        None
    }
}

/// The decimal digits of `n`, with no leading zero.
pub open spec fn nat_decimal(n: nat) -> Seq<char>
    decreases n,
{
    if n < 10 {
        seq![digit_char(n as int)]
    } else {
        nat_decimal(n / 10) + seq![digit_char((n % 10) as int)]
    }
}

/// The decimal writing of `v`: a `-` before the digits of a negative value.
pub open spec fn int_decimal(v: int) -> Seq<char> {
    if v < 0 {
        seq!['-'] + nat_decimal((-v) as nat)
    } else {
        nat_decimal(v as nat)
    }
}

pub proof fn lemma_digits_value_nonneg(s: Seq<char>)
    requires
        all_digits(s),
    ensures
        digits_value(s) >= 0,
    decreases s.len(),
{
    if s.len() > 0 {
        assert(all_digits(s.drop_last()));
        lemma_digits_value_nonneg(s.drop_last());
        assert(is_digit(s[s.len() - 1]));
    }
}

pub proof fn lemma_nat_decimal(n: nat)
    ensures
        nat_decimal(n).len() > 0,
        all_digits(nat_decimal(n)),
        digits_value(nat_decimal(n)) == n,
    decreases n,
{
    let s = nat_decimal(n);
    if n < 10 {
        assert(s.drop_last() =~= Seq::<char>::empty());
        assert(digit_value(digit_char(n as int)) == n);
        assert(digits_value(s) == digits_value(s.drop_last()) * 10 + digit_value(s.last()));
    } else {
        lemma_nat_decimal(n / 10);
        let p = nat_decimal(n / 10);
        assert(s.drop_last() =~= p);
        let m = (n % 10) as int;
        assert(digit_value(digit_char(m)) == m);
        assert(n == (n / 10) * 10 + n % 10) by (nonlinear_arith);
        assert(s.last() == digit_char(m));
        assert(digits_value(s) == digits_value(p) * 10 + m);
        assert forall|i: int| 0 <= i < s.len() implies is_digit(#[trigger] s[i]) by {
            if i < p.len() {
                assert(s[i] == p[i]);
            }
        }
    }
}

/// Reading back what `int_decimal` writes gives the value again.
pub proof fn lemma_parse_int_decimal(v: i32)
    ensures
        spec_parse_i32(int_decimal(v as int)) == Some(v),
{
    let s = int_decimal(v as int);
    if v < 0 {
        let n = (-v) as nat;
        lemma_nat_decimal(n);
        assert(s.drop_first() =~= nat_decimal(n));
    } else {
        lemma_nat_decimal(v as nat);
        let d = nat_decimal(v as nat);
        assert(is_digit(d[0]));
    }
}

/// The decimal writing of a value is not empty and holds only digits and,
/// first, a `-`.
pub proof fn lemma_int_decimal_chars(v: int)
    ensures
        int_decimal(v).len() > 0,
        forall|i: int|
            0 <= i < int_decimal(v).len() ==> is_digit(#[trigger] int_decimal(v)[i])
                || (i == 0 && int_decimal(v)[i] == '-'),
{
    if v < 0 {
        let d = nat_decimal((-v) as nat);
        lemma_nat_decimal((-v) as nat);
        assert forall|i: int| 1 <= i < int_decimal(v).len() implies is_digit(
            #[trigger] int_decimal(v)[i],
        ) by {
            assert(int_decimal(v)[i] == d[i - 1]);
        }
    } else {
        lemma_nat_decimal(v as nat);
    }
}

/// The character of a digit.
pub fn digit_to_char(d: u8) -> (c: char)
    requires
        d < 10,
    ensures
        c == digit_char(d as int),
        is_digit(c),
        digit_value(c) == d,
{
    (d + 48) as char
}

/// Appends the decimal digits of `n`.
pub fn push_nat_decimal(n: u32, out: &mut Vec<char>)
    ensures
        final(out)@ == old(out)@ + nat_decimal(n as nat),
    decreases n,
{
    let ghost start = out@;
    if n >= 10 {
        push_nat_decimal(n / 10, out);
    }
    let d = digit_to_char((n % 10) as u8);
    out.push(d);
    assert(out@ =~= start + nat_decimal(n as nat));
}

/// Appends the decimal writing of `v`, as `Display` writes an `i32`.
pub fn push_i32_decimal(v: i32, out: &mut Vec<char>)
    ensures
        final(out)@ == old(out)@ + int_decimal(v as int),
{
    let ghost start = out@;
    if v < 0 {
        out.push('-');
        let wide: i64 = v as i64;
        let n: u32 = (-wide) as u32;
        push_nat_decimal(n, out);
        assert(out@ =~= start + int_decimal(v as int));
    } else {
        push_nat_decimal(v as u32, out);
    }
}

/// Reads `s[lo..hi]` as `str::parse::<i32>` reads a string.
pub fn parse_i32(s: &[char], lo: usize, hi: usize) -> (r: Option<i32>)
    requires
        lo <= hi <= s@.len(),
    ensures
        r == spec_parse_i32(s@.subrange(lo as int, hi as int)),
{
    let ghost t = s@.subrange(lo as int, hi as int);
    let mut i = lo;
    let mut negative = false;
    if i < hi && (s[i] == '-' || s[i] == '+') {
        negative = s[i] == '-';
        i = i + 1;
    }
    let start = i;
    let ghost digits = if start > lo { t.drop_first() } else { t };
    assert(digits =~= s@.subrange(start as int, hi as int));
    if i == hi {
        return None;
    }
    let mut acc: u64 = 0;
    let mut big = false;
    while i < hi
        invariant
            lo <= start <= i <= hi <= s@.len(),
            start <= lo + 1,
            t == s@.subrange(lo as int, hi as int),
            t.len() > 0,
            digits == s@.subrange(start as int, hi as int),
            digits == (if start > lo { t.drop_first() } else { t }),
            (start > lo) == (t[0] == '-' || t[0] == '+'),
            negative == (t[0] == '-'),
            all_digits(s@.subrange(start as int, i as int)),
            !big ==> acc == digits_value(s@.subrange(start as int, i as int)),
            !big ==> acc <= 2147483648u64,
            big ==> digits_value(s@.subrange(start as int, i as int)) > 2147483648,
        decreases hi - i,
    {
        let ghost prev = s@.subrange(start as int, i as int);
        let ghost next = s@.subrange(start as int, i + 1);
        assert(next.drop_last() =~= prev);
        let c = s[i];
        if !('0' <= c && c <= '9') {
            assert(digits[i - start] == c);
            return None;
        }
        proof {
            lemma_digits_value_nonneg(prev);
            assert forall|j: int| 0 <= j < next.len() implies is_digit(#[trigger] next[j]) by {
                if j < prev.len() {
                    assert(next[j] == prev[j]);
                }
            }
        }
        if !big {
            let d: u64 = (c as u32 - 48) as u64;
            acc = acc * 10 + d;
            if acc > 2147483648 {
                big = true;
            }
        }
        i = i + 1;
    }
    assert(s@.subrange(start as int, i as int) =~= digits);
    if big {
        return None;
    }
    if negative {
        let v: i64 = -(acc as i64);
        Some(v as i32)
    } else if acc <= 2147483647 {
        Some(acc as i32)
    } else {
        None
    }
}

} // verus!
