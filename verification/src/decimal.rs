//! Numbers written in decimal and hexadecimal digits.

use vstd::prelude::*;

use crate::text::string_of;

verus! {

/// The character that stands for the value `d`, from `0` to `9` and on to `f`.
pub open spec fn digit(d: nat) -> char {
    if d < 10 {
        (48 + d) as char
    } else {
        (87 + d) as char
    }
}

/// The digits of `n` to the base `base`, the most significant first, without
/// leading zeros.
pub open spec fn digits(n: nat, base: nat) -> Seq<char>
    decreases n,
{
    if base < 2 || n < base {
        seq![digit(n)]
    } else {
        proof {
            assert(n / base < n) by (nonlinear_arith)
                requires
                    base >= 2,
                    n >= base,
            ;
        }
        digits(n / base, base).push(digit(n % base))
    }
}

/// The decimal digits of `n`.
pub open spec fn decimal(n: nat) -> Seq<char> {
    digits(n, 10)
}

pub open spec fn is_digit(c: char) -> bool {
    '0' <= c <= '9'
}

pub open spec fn all_digits(s: Seq<char>) -> bool {
    forall|i: int| 0 <= i < s.len() ==> is_digit(#[trigger] s[i])
}

/// The number that a sequence of decimal digits stands for.
pub open spec fn value(s: Seq<char>) -> nat
    decreases s.len(),
{
    if s.len() == 0 {
        0
    } else {
        (value(s.drop_last()) * 10 + (s.last() as int - 48)) as nat
    }
}

/// A number as users write it: decimal digits, with or without a `+` before
/// them, within the range of the type.
pub open spec fn number(s: Seq<char>) -> Option<u64> {
    let d = if s.len() > 0 && s[0] == '+' {
        s.skip(1)
    } else {
        s
    };
    if d.len() > 0 && all_digits(d) && value(d) <= u64::MAX {
        Some(value(d) as u64)
    } else {
        None
    }
}

/// `s` with zeros put before it up to a length of `width`.
pub open spec fn zero_padded(s: Seq<char>, width: nat) -> Seq<char>
    decreases width - s.len(),
{
    if s.len() >= width {
        s
    } else {
        zero_padded(seq!['0'] + s, width)
    }
}

/// Decimal digits are read back as the number they were written for.
pub proof fn decimal_reads_back(n: nat)
    ensures
        all_digits(decimal(n)),
        decimal(n).len() > 0,
        value(decimal(n)) == n,
        n <= u64::MAX ==> number(decimal(n)) == Some(n as u64),
    decreases n,
{
    let s = decimal(n);
    if n < 10 {
        assert(s.drop_last() =~= Seq::<char>::empty());
        assert(s.last() == digit(n));
        assert(value(s.drop_last()) == 0);
        assert(s.last() as int == 48 + n);
    } else {
        decimal_reads_back(n / 10);
        assert(s.drop_last() =~= decimal(n / 10));
        assert(s.last() == digit(n % 10));
        assert(s.last() as int == 48 + n % 10);
        assert forall|i: int| 0 <= i < s.len() implies is_digit(#[trigger] s[i]) by {
            if i < s.len() - 1 {
                assert(s[i] == decimal(n / 10)[i]);
            }
        }
    }
    assert(is_digit(s[0]));
}

proof fn lemma_value_prefix(s: Seq<char>, k: int)
    requires
        0 <= k <= s.len(),
        all_digits(s),
    ensures
        value(s.take(k)) <= value(s),
    decreases s.len() - k,
{
    if k == s.len() {
        assert(s.take(k) =~= s);
    } else {
        lemma_value_prefix(s, k + 1);
        assert(s.take(k + 1).drop_last() =~= s.take(k));
        assert(is_digit(s[k]));
        assert(s.take(k + 1).last() == s[k]);
    }
}

fn digit_char(d: u8) -> (r: char)
    requires
        d < 16,
    ensures
        r == digit(d as nat),
{
    if d < 10 {
        (48u8 + d) as char
    } else {
        (87u8 + d) as char
    }
}

/// The digits of `n` to the base `base`, the least significant first.
fn digits_reversed(n: u64, base: u64) -> (r: Vec<char>)
    requires
        2 <= base <= 16,
    ensures
        r@.reverse() == digits(n as nat, base as nat),
{
    let mut r: Vec<char> = Vec::new();
    let mut rest: u64 = n;
    assert(Seq::<char>::empty().reverse() =~= Seq::<char>::empty());
    assert(digits(n as nat, base as nat) + r@.reverse() =~= digits(n as nat, base as nat));
    while rest >= base
        invariant
            2 <= base <= 16,
            digits(n as nat, base as nat) == digits(rest as nat, base as nat) + r@.reverse(),
        decreases rest,
    {
        let ghost before = r@;
        let d: u8 = (rest % base) as u8;
        r.push(digit_char(d));
        proof {
            assert(r@.reverse() =~= seq![digit(d as nat)] + before.reverse());
            assert(digits(rest as nat, base as nat) == digits(
                rest as nat / base as nat,
                base as nat,
            ).push(digit(d as nat)));
            assert(digits(rest as nat / base as nat, base as nat).push(digit(d as nat))
                + before.reverse() =~= digits(rest as nat / base as nat, base as nat)
                + r@.reverse());
            assert(rest / base < rest) by (nonlinear_arith)
                requires
                    base >= 2,
                    rest >= base,
            ;
        }
        rest = rest / base;
    }
    let ghost before = r@;
    r.push(digit_char(rest as u8));
    proof {
        assert(r@.reverse() =~= seq![digit(rest as nat)] + before.reverse());
    }
    r
}

fn reversed(v: &Vec<char>) -> (r: Vec<char>)
    ensures
        r@ == v@.reverse(),
{
    let mut r: Vec<char> = Vec::new();
    let mut i: usize = v.len();
    while i > 0
        invariant
            i <= v@.len(),
            r@ == v@.reverse().take(v@.len() - i),
        decreases i,
    {
        i = i - 1;
        r.push(v[i]);
        assert(v@.reverse().take(v@.len() - i) =~= v@.reverse().take(v@.len() - i - 1).push(
            v@[i as int],
        ));
    }
    assert(v@.reverse().take(v@.len() as int) =~= v@.reverse());
    r
}

/// `n` in decimal, as characters.
pub fn decimal_chars(n: u64) -> (r: Vec<char>)
    ensures
        r@ == decimal(n as nat),
{
    let v = digits_reversed(n, 10);
    reversed(&v)
}

/// `n` in decimal.
pub fn to_decimal(n: u64) -> (r: String)
    ensures
        r@ == decimal(n as nat),
{
    let v = decimal_chars(n);
    string_of(v.as_slice())
}

/// `v` with zeros put before it up to a length of `width`.
fn pad_zeros(v: Vec<char>, width: usize) -> (r: Vec<char>)
    ensures
        r@ == zero_padded(v@, width as nat),
{
    let mut r: Vec<char> = v;
    while r.len() < width
        invariant
            zero_padded(r@, width as nat) == zero_padded(v@, width as nat),
        decreases width - r@.len(),
    {
        let ghost before = r@;
        r.insert(0, '0');
        assert(r@ =~= seq!['0'] + before);
    }
    r
}

/// `n` in decimal with at least `width` digits.
pub fn to_padded_decimal(n: u64, width: usize) -> (r: String)
    ensures
        r@ == zero_padded(decimal(n as nat), width as nat),
{
    let v = pad_zeros(decimal_chars(n), width);
    string_of(v.as_slice())
}

/// `n` in hexadecimal with at least `width` digits.
pub fn to_padded_hex(n: u64, width: usize) -> (r: String)
    ensures
        r@ == zero_padded(digits(n as nat, 16), width as nat),
{
    let v = digits_reversed(n, 16);
    let w = pad_zeros(reversed(&v), width);
    string_of(w.as_slice())
}

/// Reads a number as users write it.
pub fn parse_number(s: &[char]) -> (r: Option<u64>)
    ensures
        r == number(s@),
{
    let n = s.len();
    let from: usize = if n > 0 && s[0] == '+' {
        1
    } else {
        0
    };
    let ghost d = s@.skip(from as int);
    assert(s@.skip(0) =~= s@);
    if from == n {
        return None;
    }
    let mut acc: u64 = 0;
    assert(d.take(0) =~= Seq::<char>::empty());
    for i in from..n
        invariant
            n == s@.len(),
            from < n,
            from <= 1,
            d == s@.skip(from as int),
            d == (if s@.len() > 0 && s@[0] == '+' {
                s@.skip(1)
            } else {
                s@
            }),
            acc == value(d.take(i - from)),
            all_digits(d.take(i - from)),
    {
        let c = s[i];
        let ghost k = i - from;
        proof {
            assert(d[k] == c);
            assert(d.take(k + 1).drop_last() =~= d.take(k));
            assert(d.take(k + 1).last() == c);
        }
        if !('0' <= c && c <= '9') {
            assert(!is_digit(d[k]));
            return None;
        }
        let v: u64 = (c as u32 - 48) as u64;
        proof {
            if all_digits(d) {
                lemma_value_prefix(d, k + 1);
            }
        }
        if acc > u64::MAX / 10 || acc * 10 > u64::MAX - v {
            return None;
        }
        acc = acc * 10 + v;
        assert forall|j: int| 0 <= j < k + 1 implies is_digit(#[trigger] d.take(k + 1)[j]) by {
            if j < k {
                assert(d.take(k)[j] == d.take(k + 1)[j]);
            }
        }
    }
    assert(d.take(n - from) =~= d);
    Some(acc)
}

} // verus!
