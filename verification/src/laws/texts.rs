//! What is done with texts and numbers.

use vstd::prelude::*;

use crate::decimal::{
    all_digits, decimal, decimal_reads_back, digit, digits, is_digit, number, parse_number,
    to_decimal, to_padded_decimal, to_padded_hex, value, zero_padded,
};
use crate::text::{
    chars_of, chomped, contains, contains_text, find_from, first_index, is_space, is_whitespace,
    lemma_first_index, lemma_trim_end, lemma_trim_start, lines, push_text, same_text, slice_copy,
    starts_with, string_of, trim, trimmed,
};

verus! {

/// The characters of a text are its characters, and the text of characters has them.
pub proof fn a_text_is_its_characters(s: &str, v: Vec<char>, w: &[char], t: String, i: int)
    requires
        call_ensures(chars_of, (s,), v),
        w@ == v@,
        call_ensures(string_of, (w,), t),
    ensures
        v@.len() == s@.len(),
        0 <= i < s@.len() ==> v@[i] == s@[i],
        t@ == s@,
{
}

/// A text to which another is appended has the one, then the other.
pub proof fn appending_keeps_both_texts(s: &mut String, more: &str)
    requires
        call_ensures(push_text, (s, more), ()),
    ensures
        final(s)@.take(old(s)@.len() as int) == old(s)@,
        final(s)@.skip(old(s)@.len() as int) == more@,
{
    assert(final(s)@.take(old(s)@.len() as int) =~= old(s)@);
    assert(final(s)@.skip(old(s)@.len() as int) =~= more@);
}

/// Texts are the same if they have the same characters.
pub proof fn texts_are_the_same_by_their_characters(a: &str, b: &str, r: bool)
    requires
        call_ensures(same_text, (a, b), r),
    ensures
        r <==> a@.len() == b@.len() && forall|i: int| 0 <= i < a@.len() ==> a@[i] == b@[i],
{
    if a@.len() == b@.len() && (forall|i: int| 0 <= i < a@.len() ==> a@[i] == b@[i]) {
        assert(a@ =~= b@);
    }
}

/// A copied part has the characters that stand there.
pub proof fn a_copied_part_is_what_stands_there(
    v: &[char],
    from: usize,
    to: usize,
    r: Vec<char>,
    i: int,
)
    requires
        call_ensures(slice_copy, (v, from, to), r),
        from <= to <= v@.len(),
    ensures
        r@.len() == to - from,
        0 <= i < to - from ==> r@[i] == v@[from + i],
{
}

/// White space is what Unicode calls so.
pub proof fn white_space_is_that_of_unicode(c: char, r: bool)
    requires
        call_ensures(is_whitespace, (c,), r),
    ensures
        r == is_space(c),
        r <==> ({
            let n = c as int;
            9 <= n <= 13 || n == 32 || n == 133 || n == 160 || n == 5760 || 8192 <= n <= 8202 || n
                == 8232 || n == 8233 || n == 8239 || n == 8287 || n == 12288
        }),
{
}

/// A trimmed text is what is left of a text without white space at either end, and nothing
/// but white space is taken off.
pub proof fn trimming_takes_off_white_space_alone(v: &[char], r: Vec<char>) -> (from: int)
    requires
        call_ensures(trim, (v,), r),
    ensures
        r@ == trimmed(v@),
        0 <= from <= from + r@.len() <= v@.len(),
        r@ == v@.subrange(from, from + r@.len()),
        forall|i: int| 0 <= i < from ==> is_space(#[trigger] v@[i]),
        forall|i: int| from + r@.len() <= i < v@.len() ==> is_space(#[trigger] v@[i]),
        r@.len() > 0 ==> !is_space(r@[0]) && !is_space(r@.last()),
{
    lemma_trimmed(v@)
}

pub proof fn lemma_trimmed(s: Seq<char>) -> (from: int)
    ensures
        0 <= from <= from + trimmed(s).len() <= s.len(),
        trimmed(s) == s.subrange(from, from + trimmed(s).len()),
        forall|i: int| 0 <= i < from ==> is_space(#[trigger] s[i]),
        forall|i: int| from + trimmed(s).len() <= i < s.len() ==> is_space(#[trigger] s[i]),
        trimmed(s).len() > 0 ==> !is_space(trimmed(s)[0]) && !is_space(trimmed(s).last()),
{
    let lo = lemma_lead(s);
    let t = s.skip(lo);
    let hi = lemma_trail(t);
    lemma_trim_start(s, lo);
    lemma_trim_end(t, hi);
    assert(t.take(hi) =~= s.subrange(lo, lo + hi));
    assert forall|i: int| lo + hi <= i < s.len() implies is_space(#[trigger] s[i]) by {
        assert(t[i - lo] == s[i]);
    }
    lo
}

proof fn lemma_lead(s: Seq<char>) -> (lo: int)
    ensures
        0 <= lo <= s.len(),
        forall|i: int| 0 <= i < lo ==> is_space(#[trigger] s[i]),
        lo < s.len() ==> !is_space(s[lo]),
    decreases s.len(),
{
    if s.len() > 0 && is_space(s[0]) {
        let rest = s.drop_first();
        let k = lemma_lead(rest);
        assert forall|i: int| 0 <= i < k + 1 implies is_space(#[trigger] s[i]) by {
            if i > 0 {
                assert(rest[i - 1] == s[i]);
            }
        }
        k + 1
    } else {
        0
    }
}

proof fn lemma_trail(s: Seq<char>) -> (hi: int)
    ensures
        0 <= hi <= s.len(),
        forall|i: int| hi <= i < s.len() ==> is_space(#[trigger] s[i]),
        hi > 0 ==> !is_space(s[hi - 1]),
    decreases s.len(),
{
    if s.len() > 0 && is_space(s.last()) {
        let rest = s.drop_last();
        let k = lemma_trail(rest);
        assert forall|i: int| k <= i < s.len() implies is_space(#[trigger] s[i]) by {
            if i < rest.len() {
                assert(rest[i] == s[i]);
            }
        }
        k
    } else {
        s.len() as int
    }
}

/// A text begins with another if it is that one and something after it.
pub proof fn a_text_begins_with_its_beginning(v: &[char], prefix: &[char], r: bool)
    requires
        call_ensures(starts_with, (v, prefix), r),
    ensures
        r ==> prefix@.len() <= v@.len() && prefix@ + v@.skip(prefix@.len() as int) == v@,
        forall|rest: Seq<char>| v@ == #[trigger] (prefix@ + rest) ==> r,
{
    if r {
        assert(prefix@ + v@.skip(prefix@.len() as int) =~= v@);
    }
    assert forall|rest: Seq<char>| v@ == #[trigger] (prefix@ + rest) implies r by {
        assert(v@.subrange(0, prefix@.len() as int) =~= prefix@);
    }
}

/// Whether `needle` stands in `hay` from `i` on.
pub open spec fn stands_at(hay: Seq<char>, needle: Seq<char>, i: int) -> bool {
    0 <= i <= hay.len() - needle.len() && forall|j: int|
        0 <= j < needle.len() ==> #[trigger] needle[j] == hay[i + j]
}

/// A text is found in another if that is something, the text, and something.
pub proof fn a_text_is_found_where_it_stands(hay: &[char], needle: &[char], r: bool)
    requires
        call_ensures(contains, (hay, needle), r),
    ensures
        forall|a: Seq<char>, b: Seq<char>| hay@ == #[trigger] (a + needle@ + b) ==> r,
        r ==> exists|i: int| #[trigger] stands_at(hay@, needle@, i),
{
    lemma_found(hay@, needle@);
}

pub proof fn lemma_found(hay: Seq<char>, needle: Seq<char>)
    ensures
        forall|a: Seq<char>, b: Seq<char>| hay == #[trigger] (a + needle + b) ==> contains_text(
            hay,
            needle,
        ),
        contains_text(hay, needle) ==> exists|i: int| #[trigger] stands_at(hay, needle, i),
{
    assert forall|a: Seq<char>, b: Seq<char>| hay == #[trigger] (
    a + needle + b) implies contains_text(hay, needle) by {
        let i = a.len() as int;
        assert(hay.subrange(i, i + needle.len()) =~= needle);
    }
    if contains_text(hay, needle) {
        let i = choose|i: int|
            0 <= i <= hay.len() - needle.len() && #[trigger] hay.subrange(i, i + needle.len())
                == needle;
        assert forall|j: int| 0 <= j < needle.len() implies #[trigger] needle[j] == hay[i + j] by {
            assert(hay.subrange(i, i + needle.len())[j] == hay[i + j]);
        }
        assert(stands_at(hay, needle, i));
    }
}

/// The next of a character is at the first place from there on that has it.
pub proof fn the_next_of_a_character_is_found(v: &[char], c: char, from: usize, r: usize)
    requires
        call_ensures(find_from, (v, c, from), r),
        from <= v@.len(),
    ensures
        from <= r <= v@.len(),
        r < v@.len() ==> v@[r as int] == c,
        forall|i: int| from <= i < r ==> v@[i] != c,
{
}

proof fn lemma_line_feed(s: Seq<char>)
    ensures
        first_index(s, '\n') <= s.len(),
        first_index(s, '\n') < s.len() ==> s[first_index(s, '\n') as int] == '\n',
        forall|i: int| 0 <= i < first_index(s, '\n') ==> s[i] != '\n',
    decreases s.len(),
{
    if s.len() > 0 && s[0] != '\n' {
        lemma_line_feed(s.drop_first());
        assert forall|i: int| 0 <= i < first_index(s, '\n') implies s[i] != '\n' by {
            if i > 0 {
                assert(s[i] == s.drop_first()[i - 1]);
            }
        }
    }
}

/// A text is read line by line: what ends in a line feed is so many lines, then come those
/// of the rest. A text without one is one line, and a carriage return before a line feed
/// belongs to the line's end.
pub proof fn a_text_is_read_line_by_line(a: Seq<char>, b: Seq<char>)
    ensures
        a.len() == 0 ==> lines(a).len() == 0,
        a.len() > 0 && !a.contains('\n') ==> lines(a) == seq![a],
        !a.contains('\n') && !(a.len() > 0 && a.last() == '\r') ==> lines(a.push('\n')) == seq![a],
        !a.contains('\n') && a.len() > 0 && a.last() == '\r' ==> lines(a.push('\n')) == seq![
            a.drop_last(),
        ],
        a.len() == 0 || a.last() == '\n' ==> lines(a + b) == lines(a) + lines(b),
    decreases a.len(),
{
    let k = first_index(a, '\n') as int;
    lemma_line_feed(a);
    if !a.contains('\n') {
        if k < a.len() {
            assert(a.contains(a[k]));
        }
        let t = a.push('\n');
        lemma_first_index(t, '\n', a.len() as int);
        assert(t.take(a.len() as int) =~= a);
        assert(t.skip((a.len() + 1) as int) =~= Seq::empty());
        assert(lines(t.skip((a.len() + 1) as int)) =~= Seq::empty());
        assert(seq![chomped(a)] + Seq::<Seq<char>>::empty() =~= seq![chomped(a)]);
    }
    if a.len() == 0 {
        assert(a + b =~= b);
        assert(lines(a) + lines(b) =~= lines(b));
    } else if a.last() == '\n' {
        assert(k < a.len()) by {
            assert(a[a.len() - 1] == '\n');
        }
        let rest = a.skip(k + 1);
        lemma_first_index(a + b, '\n', k);
        assert((a + b).take(k) =~= a.take(k));
        assert((a + b).skip(k + 1) =~= rest + b);
        if rest.len() > 0 {
            assert(rest.last() == a.last());
        }
        a_text_is_read_line_by_line(rest, b);
        assert(lines(a + b) =~= lines(a) + lines(b));
    }
}

/// The number that decimal digits stand for.
pub open spec fn numeral(s: Seq<char>) -> nat {
    s.fold_left(0, |n: nat, c: char| (n * 10 + (c as int - '0' as int)) as nat)
}

/// Whether a text is digits alone, and there are some.
pub open spec fn is_numeral(s: Seq<char>) -> bool {
    s.len() > 0 && forall|i: int| 0 <= i < s.len() ==> '0' <= #[trigger] s[i] <= '9'
}

/// Whether a text is a number in at least `width` digits, with no more zeros before it than
/// that takes.
pub open spec fn is_field(t: Seq<char>, width: nat, n: int) -> bool {
    is_numeral(t) && t.len() >= width && numeral(t) == n && (t.len() > width ==> t[0] != '0')
}

pub proof fn lemma_numeral(s: Seq<char>)
    ensures
        numeral(s) == value(s),
        is_numeral(s) == (s.len() > 0 && all_digits(s)),
    decreases s.len(),
{
    if s.len() > 0 {
        lemma_numeral(s.drop_last());
    }
    if all_digits(s) {
        assert forall|i: int| 0 <= i < s.len() implies '0' <= #[trigger] s[i] <= '9' by {
            assert(is_digit(s[i]));
        }
    }
}

proof fn lemma_first_digit(n: nat)
    ensures
        decimal(n).len() > 1 ==> decimal(n)[0] != '0',
        decimal(n).len() == 1 ==> n < 10,
        n > 0 ==> decimal(n)[0] != '0',
    decreases n,
{
    if n >= 10 {
        lemma_first_digit(n / 10);
        decimal_reads_back(n / 10);
        assert(decimal(n)[0] == decimal(n / 10)[0]);
    }
}

/// A number is written in digits that stand for it, without a zero before them.
pub proof fn a_number_is_written_in_its_digits(n: u64, r: String)
    requires
        call_ensures(to_decimal, (n,), r),
    ensures
        is_numeral(r@),
        numeral(r@) == n,
        r@.len() > 1 ==> r@[0] != '0',
        r@ == decimal(n as nat),
{
    lemma_decimal(n as nat);
}

pub proof fn lemma_decimal(n: nat)
    ensures
        is_numeral(decimal(n)),
        numeral(decimal(n)) == n,
        decimal(n).len() > 1 ==> decimal(n)[0] != '0',
{
    decimal_reads_back(n);
    lemma_numeral(decimal(n));
    lemma_first_digit(n);
}

pub proof fn lemma_padded(s: Seq<char>, width: nat) -> (zeros: nat)
    ensures
        zeros == if s.len() >= width {
            0
        } else {
            (width - s.len()) as nat
        },
        zero_padded(s, width) == Seq::new(zeros, |i: int| '0') + s,
    decreases width - s.len(),
{
    if s.len() >= width {
        assert(Seq::new(0, |i: int| '0') + s =~= s);
        0
    } else {
        let more = lemma_padded(seq!['0'] + s, width);
        assert(Seq::new(more, |i: int| '0') + (seq!['0'] + s) =~= Seq::new(
            more + 1,
            |i: int| '0',
        ) + s);
        more + 1
    }
}

proof fn lemma_zeros(s: Seq<char>, zeros: nat)
    ensures
        value(Seq::new(zeros, |i: int| '0') + s) == value(s),
    decreases s.len(), zeros,
{
    let t = Seq::new(zeros, |i: int| '0') + s;
    if s.len() > 0 {
        lemma_zeros(s.drop_last(), zeros);
        assert(t.drop_last() =~= Seq::new(zeros, |i: int| '0') + s.drop_last());
    } else if zeros > 0 {
        let fewer = (zeros - 1) as nat;
        lemma_zeros(s, fewer);
        assert(t.drop_last() =~= Seq::new(fewer, |i: int| '0') + s);
        assert(t.last() == '0');
    } else {
        assert(t =~= s);
    }
}

/// A padded number has at least so many digits, and stands for the same: zeros come before
/// it, and no more than are needed.
pub proof fn a_padded_number_is_the_number(n: u64, width: usize, r: String)
    requires
        call_ensures(to_padded_decimal, (n, width), r),
    ensures
        is_numeral(r@),
        numeral(r@) == n,
        r@.len() >= width,
        r@.len() > width && r@.len() > 1 ==> r@[0] != '0',
        r@ == zero_padded(decimal(n as nat), width as nat),
{
    lemma_padded_numeral(n as nat, width as nat);
}

pub proof fn lemma_padded_numeral(n: nat, width: nat)
    ensures
        ({
            let t = zero_padded(decimal(n), width);
            &&& is_numeral(t)
            &&& numeral(t) == n
            &&& t.len() >= width
            &&& t.len() > width && t.len() > 1 ==> t[0] != '0'
        }),
{
    let s = decimal(n);
    let t = zero_padded(s, width);
    let zeros = lemma_padded(s, width);
    lemma_decimal(n);
    lemma_zeros(s, zeros);
    lemma_numeral(s);
    lemma_numeral(t);
    assert forall|i: int| 0 <= i < t.len() implies is_digit(#[trigger] t[i]) by {
        if i >= zeros {
            assert(t[i] == s[i - zeros]);
        }
    }
    assert(t.len() == zeros + s.len());
    if t.len() > width {
        assert(t =~= s);
    }
}

/// The value of a hexadecimal digit.
pub open spec fn hex_digit(c: char) -> int {
    if '0' <= c <= '9' {
        c as int - '0' as int
    } else {
        c as int - 'a' as int + 10
    }
}

/// The number that hexadecimal digits stand for.
pub open spec fn hex_numeral(s: Seq<char>) -> nat {
    s.fold_left(0, |n: nat, c: char| (n * 16 + hex_digit(c)) as nat)
}

proof fn lemma_hex(n: nat)
    ensures
        hex_numeral(digits(n, 16)) == n,
        digits(n, 16).len() > 0,
        forall|i: int|
            0 <= i < digits(n, 16).len() ==> '0' <= #[trigger] digits(n, 16)[i] <= '9' || 'a'
                <= digits(n, 16)[i] <= 'f',
    decreases n,
{
    let s = digits(n, 16);
    let f = |m: nat, c: char| (m * 16 + hex_digit(c)) as nat;
    if n < 16 {
        assert(s.drop_last() =~= Seq::empty());
        assert(s.drop_last().fold_left(0, f) == 0);
        assert(s.last() == digit(n));
        assert(hex_digit(digit(n)) == n);
    } else {
        lemma_hex(n / 16);
        assert(s.drop_last() =~= digits(n / 16, 16));
        assert(s.last() == digit(n % 16));
        assert(hex_digit(digit(n % 16)) == n % 16);
        assert forall|i: int| 0 <= i < s.len() implies '0' <= #[trigger] s[i] <= '9' || 'a' <= s[i]
            <= 'f' by {
            if i < s.len() - 1 {
                assert(s[i] == digits(n / 16, 16)[i]);
            }
        }
    }
}

proof fn lemma_hex_zeros(s: Seq<char>, zeros: nat)
    ensures
        hex_numeral(Seq::new(zeros, |i: int| '0') + s) == hex_numeral(s),
    decreases s.len(), zeros,
{
    let t = Seq::new(zeros, |i: int| '0') + s;
    if s.len() > 0 {
        lemma_hex_zeros(s.drop_last(), zeros);
        assert(t.drop_last() =~= Seq::new(zeros, |i: int| '0') + s.drop_last());
    } else if zeros > 0 {
        let fewer = (zeros - 1) as nat;
        lemma_hex_zeros(s, fewer);
        assert(t.drop_last() =~= Seq::new(fewer, |i: int| '0') + s);
        assert(t.last() == '0');
        assert(s.fold_left(0, |m: nat, c: char| (m * 16 + hex_digit(c)) as nat) == 0);
    } else {
        assert(t =~= s);
    }
}

spec fn sixteens(k: nat) -> nat
    decreases k,
{
    if k == 0 {
        1
    } else {
        16 * sixteens((k - 1) as nat)
    }
}

proof fn lemma_hex_length(n: nat, k: nat)
    requires
        k > 0,
    ensures
        n < sixteens(k) ==> digits(n, 16).len() <= k,
    decreases k,
{
    if n >= 16 && n < sixteens(k) {
        if k == 1 {
            reveal_with_fuel(sixteens, 2);
        } else {
            lemma_hex_length(n / 16, (k - 1) as nat);
        }
    }
}

proof fn lemma_hex_first(n: nat)
    ensures
        digits(n, 16).len() > 1 ==> digits(n, 16)[0] != '0',
        n > 0 ==> digits(n, 16)[0] != '0',
    decreases n,
{
    if n >= 16 {
        lemma_hex_first(n / 16);
        lemma_hex(n / 16);
        assert(digits(n, 16)[0] == digits(n / 16, 16)[0]);
    }
}

/// A number in hexadecimal stands for itself, in at least so many digits.
pub proof fn a_hexadecimal_number_is_the_number(n: u64, width: usize, r: String)
    requires
        call_ensures(to_padded_hex, (n, width), r),
    ensures
        hex_numeral(r@) == n,
        r@.len() >= width,
        forall|i: int|
            0 <= i < r@.len() ==> '0' <= #[trigger] r@[i] <= '9' || 'a' <= r@[i] <= 'f',
        r@.len() > width && r@.len() > 1 ==> r@[0] != '0',
        width == 16 ==> r@.len() == 16,
        r@ == zero_padded(digits(n as nat, 16), width as nat),
{
    lemma_hex_text(n as nat, width as nat);
}

pub proof fn lemma_hex_text(n: nat, width: nat)
    ensures
        ({
            let t = zero_padded(digits(n, 16), width);
            &&& hex_numeral(t) == n
            &&& t.len() >= width
            &&& forall|i: int|
                0 <= i < t.len() ==> '0' <= #[trigger] t[i] <= '9' || 'a' <= t[i] <= 'f'
            &&& t.len() > width && t.len() > 1 ==> t[0] != '0'
            &&& n <= u64::MAX && width == 16 ==> t.len() == 16
        }),
{
    let s = digits(n, 16);
    let t = zero_padded(s, width);
    let zeros = lemma_padded(s, width);
    lemma_hex(n);
    lemma_hex_first(n);
    lemma_hex_zeros(s, zeros);
    assert(t.len() == zeros + s.len());
    if t.len() > width {
        assert(t =~= s);
    }
    if n <= u64::MAX {
        reveal_with_fuel(sixteens, 17);
        lemma_hex_length(n, 16);
    }
    assert forall|i: int| 0 <= i < t.len() implies '0' <= #[trigger] t[i] <= '9' || 'a' <= t[i]
        <= 'f' by {
        if i >= zeros {
            assert(t[i] == s[i - zeros]);
        }
    }
}

/// A number is read from its digits, with or without a plus before them, if it is not too
/// large. Nothing else is a number.
pub proof fn a_number_is_read_from_its_digits(s: &[char], r: Option<u64>)
    requires
        call_ensures(parse_number, (s,), r),
    ensures
        r == number(s@),
        ({
            let d = if s@.len() > 0 && s@[0] == '+' {
                s@.skip(1)
            } else {
                s@
            };
            &&& r is Some <==> is_numeral(d) && numeral(d) <= u64::MAX
            &&& r is Some ==> r->0 == numeral(d)
        }),
{
    lemma_number(s@);
}

pub proof fn lemma_number(s: Seq<char>)
    ensures
        ({
            let d = if s.len() > 0 && s[0] == '+' {
                s.skip(1)
            } else {
                s
            };
            &&& number(s) is Some <==> is_numeral(d) && numeral(d) <= u64::MAX
            &&& number(s) is Some ==> number(s)->0 == numeral(d)
        }),
{
    let d = if s.len() > 0 && s[0] == '+' {
        s.skip(1)
    } else {
        s
    };
    lemma_numeral(d);
}

} // verus!
