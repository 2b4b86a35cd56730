//! Character-level groundwork: decimal digits, whitespace, digit-string
//! values, and rendering of unsigned numbers, shared by the timestamp
//! grammar, the document parser and the formatter.

use vstd::prelude::*;
use vstd::string::*;

verus! {

/// An ASCII decimal digit.
pub open spec fn is_digit(c: char) -> bool {
    '0' <= c && c <= '9'
}

/// The numeric value of a decimal digit.
pub open spec fn digit_val(c: char) -> nat {
    (c as u32 - '0' as u32) as nat
}

/// The decimal digit with the given value.
pub open spec fn digit_char(d: nat) -> char {
    if d == 0 {
        '0'
    } else if d == 1 {
        '1'
    } else if d == 2 {
        '2'
    } else if d == 3 {
        '3'
    } else if d == 4 {
        '4'
    } else if d == 5 {
        '5'
    } else if d == 6 {
        '6'
    } else if d == 7 {
        '7'
    } else if d == 8 {
        '8'
    } else {
        '9'
    }
}

/// Every character of `s` is a decimal digit.
pub open spec fn all_digits(s: Seq<char>) -> bool {
    forall|i: int| 0 <= i < s.len() ==> is_digit(#[trigger] s[i])
}

/// The value of a digit string read in base 10 (empty string: 0).
pub open spec fn digits_val(s: Seq<char>) -> nat
    decreases s.len(),
{
    if s.len() == 0 {
        0
    } else {
        digits_val(s.drop_last()) * 10 + digit_val(s.last())
    }
}

/// Ten to the `n`.
pub open spec fn pow10(n: nat) -> nat
    decreases n,
{
    if n == 0 {
        1
    } else {
        10 * pow10((n - 1) as nat)
    }
}

/// Incidental whitespace tolerated around a timestamp and inside blank
/// lines: the ASCII whitespace characters, carriage return included.
pub open spec fn is_ws(c: char) -> bool {
    c == ' ' || c == '\t' || c == '\n' || c == '\r' || c == '\u{b}' || c == '\u{c}'
}

/// How many whitespace characters `s` starts with.
pub open spec fn leading_ws(s: Seq<char>) -> int
    decreases s.len(),
{
    if s.len() == 0 || !is_ws(s[0]) {
        0
    } else {
        1 + leading_ws(s.skip(1))
    }
}

/// How many whitespace characters `s` ends with.
pub open spec fn trailing_ws(s: Seq<char>) -> int
    decreases s.len(),
{
    if s.len() == 0 || !is_ws(s.last()) {
        0
    } else {
        1 + trailing_ws(s.drop_last())
    }
}

/// `s` with leading and trailing whitespace removed.
pub open spec fn trim_ws(s: Seq<char>) -> Seq<char> {
    if leading_ws(s) == s.len() {
        Seq::empty()
    } else {
        s.subrange(leading_ws(s), s.len() - trailing_ws(s))
    }
}

/// A line is blank when it holds nothing but whitespace.
pub open spec fn is_blank(s: Seq<char>) -> bool {
    forall|i: int| 0 <= i < s.len() ==> is_ws(#[trigger] s[i])
}

/// The decimal digits of `n`, most significant first, without leading zeros
/// (`0` renders as "0").
pub open spec fn dec_digits(n: nat) -> Seq<char>
    decreases n,
{
    if n < 10 {
        seq![digit_char(n)]
    } else {
        dec_digits(n / 10).push(digit_char(n % 10))
    }
}

/// The rendering of a signed number: a minus sign when negative, then the
/// decimal digits of the magnitude.
pub open spec fn fmt_signed(v: int) -> Seq<char> {
    if v < 0 {
        seq!['-'] + dec_digits((-v) as nat)
    } else {
        dec_digits(v as nat)
    }
}

/// Where the digit run starting at `i` ends: the first index at or after `i`
/// holding no digit.
pub open spec fn digits_end(s: Seq<char>, i: int) -> int
    decreases s.len() - i,
{
    if i < 0 || i >= s.len() || !is_digit(s[i]) {
        i
    } else {
        digits_end(s, i + 1)
    }
}

pub proof fn lemma_digits_end(s: Seq<char>, i: int)
    requires
        0 <= i <= s.len(),
    ensures
        i <= digits_end(s, i) <= s.len(),
        forall|j: int| i <= j < digits_end(s, i) ==> is_digit(#[trigger] s[j]),
        digits_end(s, i) < s.len() ==> !is_digit(s[digits_end(s, i)]),
        all_digits(s.subrange(i, digits_end(s, i))),
    decreases s.len() - i,
{
    if i >= s.len() || !is_digit(s[i]) {
    } else {
        lemma_digits_end(s, i + 1);
    }
    let e = digits_end(s, i);
    assert forall|k: int| 0 <= k < e - i implies is_digit(#[trigger] s.subrange(i, e)[k]) by {
        assert(s.subrange(i, e)[k] == s[i + k]);
    }
}

/// A digit string's value is below ten to its length.
pub proof fn lemma_digits_val_bound(s: Seq<char>)
    requires
        all_digits(s),
    ensures
        digits_val(s) < pow10(s.len()),
    decreases s.len(),
{
    if s.len() == 0 {
    } else {
        assert(all_digits(s.drop_last())) by {
            assert(forall|i: int|
                0 <= i < s.len() - 1 ==> #[trigger] s.drop_last()[i] == s[i]);
        }
        lemma_digits_val_bound(s.drop_last());
        assert(is_digit(s.last()));
        assert(digit_val(s.last()) <= 9);
        let x = digits_val(s.drop_last());
        let p = pow10((s.len() - 1) as nat);
        assert(pow10(s.len()) == 10 * p);
        assert(x < p);
        assert(x * 10 + 9 < 10 * p) by (nonlinear_arith)
            requires
                x < p,
        ;
    }
}

/// Splitting a digit string: the left part is weighted by ten to the length
/// of the right part.
pub proof fn lemma_digits_val_concat(a: Seq<char>, b: Seq<char>)
    ensures
        digits_val(a + b) == digits_val(a) * pow10(b.len()) + digits_val(b),
    decreases b.len(),
{
    if b.len() == 0 {
        assert(a + b =~= a);
        assert(pow10(0) == 1);
        assert(digits_val(a + b) == digits_val(a) * pow10(b.len()) + digits_val(b));
    } else {
        lemma_digits_val_concat(a, b.drop_last());
        assert((a + b).drop_last() =~= a + b.drop_last());
        assert((a + b).last() == b.last());
        let x = digits_val(a);
        let p = pow10((b.len() - 1) as nat);
        let y = digits_val(b.drop_last());
        let d = digit_val(b.last());
        assert(digits_val((a + b).drop_last()) == x * p + y);
        assert(digit_val((a + b).last()) == d);
        assert(digits_val(a + b) == (x * p + y) * 10 + d);
        assert(pow10(b.len()) == 10 * p);
        assert((x * p + y) * 10 + d == x * (10 * p) + (y * 10 + d)) by (nonlinear_arith);
        assert(x * (10 * p) == x * pow10(b.len()));
        assert(digits_val(b) == y * 10 + d);
        assert(digits_val(a + b) == digits_val(a) * pow10(b.len()) + digits_val(b));
    }
}

/// The decimal rendering of a number is all digits and reads back to the
/// same number.
pub proof fn lemma_dec_digits(n: nat)
    ensures
        dec_digits(n).len() >= 1,
        all_digits(dec_digits(n)),
        digits_val(dec_digits(n)) == n,
        is_digit(dec_digits(n)[0]),
        is_digit(dec_digits(n).last()),
        dec_digits(n)[0] != '0' || n < 10,
    decreases n,
{
    if n < 10 {
        let w = dec_digits(n);
        assert(w == seq![digit_char(n)]);
        assert(w.drop_last() =~= Seq::<char>::empty());
        assert(w.last() == digit_char(n));
        assert(is_digit(digit_char(n)));
        assert(digit_val(digit_char(n)) == n);
        assert(digits_val(w) == digits_val(w.drop_last()) * 10 + digit_val(w.last()));
        assert(digits_val(Seq::<char>::empty()) == 0);
        assert(digits_val(w) == 0 * 10 + n);
    } else {
        lemma_dec_digits(n / 10);
        let d = dec_digits(n / 10);
        let w = dec_digits(n);
        assert(w == d.push(digit_char(n % 10)));
        assert(w.drop_last() =~= d);
        assert(w.last() == digit_char(n % 10));
        assert(digit_val(digit_char(n % 10)) == n % 10);
        assert(digits_val(w) == (n / 10) * 10 + n % 10);
        assert((n / 10) * 10 + n % 10 == n) by {
            vstd::arithmetic::div_mod::lemma_fundamental_div_mod(n as int, 10);
        }
        assert forall|i: int| 0 <= i < w.len() implies is_digit(#[trigger] w[i]) by {
            if i < d.len() {
                assert(w[i] == d[i]);
            }
        }
        assert(w[0] == d[0]);
        assert(n / 10 >= 1);
    }
}

/// Where a digit run is known to end, `digits_end` finds exactly that spot.
pub proof fn lemma_digits_end_is(s: Seq<char>, i: int, j: int)
    requires
        0 <= i <= j <= s.len(),
        forall|k: int| i <= k < j ==> is_digit(#[trigger] s[k]),
        j < s.len() ==> !is_digit(s[j]),
    ensures
        digits_end(s, i) == j,
    decreases j - i,
{
    if i == j {
    } else {
        lemma_digits_end_is(s, i + 1, j);
    }
}

/// A string of zero characters reads as the number zero.
pub proof fn lemma_digits_val_zeros(s: Seq<char>)
    requires
        forall|i: int| 0 <= i < s.len() ==> #[trigger] s[i] == '0',
    ensures
        digits_val(s) == 0,
    decreases s.len(),
{
    if s.len() > 0 {
        assert(forall|i: int|
            0 <= i < s.len() - 1 ==> #[trigger] s.drop_last()[i] == s[i]);
        lemma_digits_val_zeros(s.drop_last());
    }
}

/// A single character reads as its digit value.
pub proof fn lemma_digits_val_single(c: char)
    ensures
        digits_val(seq![c]) == digit_val(c),
{
    assert(seq![c].drop_last() =~= Seq::<char>::empty());
    assert(seq![c].last() == c);
    assert(digits_val(Seq::<char>::empty()) == 0);
}

/// Transfer digit-ness from a subrange to the enclosing string.
pub proof fn lemma_all_digits_range(s: Seq<char>, i: int, j: int)
    requires
        0 <= i <= j <= s.len(),
        all_digits(s.subrange(i, j)),
    ensures
        forall|k: int| i <= k < j ==> is_digit(#[trigger] s[k]),
{
    assert forall|k: int| i <= k < j implies is_digit(#[trigger] s[k]) by {
        assert(s.subrange(i, j)[k - i] == s[k]);
    }
}

/// The length of a decimal rendering, for numbers below a thousand.
pub proof fn lemma_dec_digits_len(n: nat)
    ensures
        n < 10 ==> dec_digits(n).len() == 1,
        10 <= n < 100 ==> dec_digits(n).len() == 2,
        100 <= n < 1000 ==> dec_digits(n).len() == 3,
{
    if n < 10 {
    } else if n < 100 {
        assert(dec_digits(n) == dec_digits(n / 10).push(digit_char(n % 10)));
        assert(n / 10 < 10);
    } else if n < 1000 {
        assert(dec_digits(n) == dec_digits(n / 10).push(digit_char(n % 10)));
        assert(10 <= n / 10 < 100);
        assert(dec_digits(n / 10) == dec_digits(n / 10 / 10).push(digit_char(n / 10 % 10)));
        assert(n / 10 / 10 < 10);
    }
}

/// The first `leading_zeros(s)` characters are zeros, and the next one, if
/// any, is not.
pub proof fn lemma_leading_zeros_bounds(s: Seq<char>)
    ensures
        0 <= leading_zeros(s) <= s.len(),
        forall|i: int| 0 <= i < leading_zeros(s) ==> #[trigger] s[i] == '0',
        leading_zeros(s) < s.len() ==> s[leading_zeros(s)] != '0',
    decreases s.len(),
{
    if s.len() == 0 || s[0] != '0' {
    } else {
        lemma_leading_zeros_bounds(s.skip(1));
        assert forall|i: int| 0 <= i < leading_zeros(s) implies #[trigger] s[i] == '0' by {
            if i > 0 {
                assert(s.skip(1)[i - 1] == s[i]);
            }
        }
        if leading_zeros(s) < s.len() {
            assert(s.skip(1)[leading_zeros(s) - 1] == s[leading_zeros(s)]);
        }
    }
}

/// The last `trailing_zeros(s)` characters are zeros, and the one before
/// them, if any, is not.
pub proof fn lemma_trailing_zeros_bounds(s: Seq<char>)
    ensures
        0 <= trailing_zeros(s) <= s.len(),
        forall|i: int| s.len() - trailing_zeros(s) <= i < s.len() ==> #[trigger] s[i] == '0',
        trailing_zeros(s) < s.len() ==> s[s.len() - trailing_zeros(s) - 1] != '0',
    decreases s.len(),
{
    if s.len() == 0 || s.last() != '0' {
    } else {
        lemma_trailing_zeros_bounds(s.drop_last());
        assert forall|i: int| s.len() - trailing_zeros(s) <= i < s.len() implies #[trigger] s[i]
            == '0' by {
            if i < s.len() - 1 {
                assert(s.drop_last()[i] == s[i]);
            }
        }
        if trailing_zeros(s) < s.len() {
            assert(s.drop_last()[s.len() - trailing_zeros(s) - 1] == s[s.len() - trailing_zeros(s)
                - 1]);
        }
    }
}

/// If everything before `lo` is whitespace and `lo` is past the end or holds
/// none, then `lo` is exactly the leading whitespace count.
pub proof fn lemma_leading_ws_is(s: Seq<char>, lo: int)
    requires
        0 <= lo <= s.len(),
        forall|j: int| 0 <= j < lo ==> is_ws(#[trigger] s[j]),
        lo < s.len() ==> !is_ws(s[lo]),
    ensures
        leading_ws(s) == lo,
    decreases s.len(),
{
    if lo == 0 {
    } else {
        assert(is_ws(s[0]));
        assert forall|j: int| 0 <= j < lo - 1 implies is_ws(#[trigger] s.skip(1)[j]) by {
            assert(s.skip(1)[j] == s[j + 1]);
        }
        if lo - 1 < s.len() - 1 {
            assert(s.skip(1)[lo - 1] == s[lo]);
        }
        lemma_leading_ws_is(s.skip(1), lo - 1);
    }
}

/// The mirror statement for the trailing whitespace count.
pub proof fn lemma_trailing_ws_is(s: Seq<char>, n: int)
    requires
        0 <= n <= s.len(),
        forall|j: int| s.len() - n <= j < s.len() ==> is_ws(#[trigger] s[j]),
        n < s.len() ==> !is_ws(s[s.len() - n - 1]),
    ensures
        trailing_ws(s) == n,
    decreases s.len(),
{
    if n == 0 {
    } else {
        assert(is_ws(s.last()));
        assert forall|j: int| s.len() - n <= j < s.len() - 1 implies is_ws(
            #[trigger] s.drop_last()[j],
        ) by {
            assert(s.drop_last()[j] == s[j]);
        }
        if n - 1 < s.len() - 1 {
            assert(s.drop_last()[s.len() - n - 1] == s[s.len() - n - 1]);
        }
        lemma_trailing_ws_is(s.drop_last(), n - 1);
    }
}

/// How many '0' characters `s` starts with.
pub open spec fn leading_zeros(s: Seq<char>) -> int
    decreases s.len(),
{
    if s.len() == 0 || s[0] != '0' {
        0
    } else {
        1 + leading_zeros(s.skip(1))
    }
}

/// How many '0' characters `s` ends with.
pub open spec fn trailing_zeros(s: Seq<char>) -> int
    decreases s.len(),
{
    if s.len() == 0 || s.last() != '0' {
        0
    } else {
        1 + trailing_zeros(s.drop_last())
    }
}

/// If everything before `lo` is '0' and `lo` is past the end or holds
/// another character, then `lo` is exactly the leading zero count.
pub proof fn lemma_leading_zeros_is(s: Seq<char>, lo: int)
    requires
        0 <= lo <= s.len(),
        forall|j: int| 0 <= j < lo ==> #[trigger] s[j] == '0',
        lo < s.len() ==> s[lo] != '0',
    ensures
        leading_zeros(s) == lo,
    decreases s.len(),
{
    if lo == 0 {
    } else {
        assert(s[0] == '0');
        assert forall|j: int| 0 <= j < lo - 1 implies #[trigger] s.skip(1)[j] == '0' by {
            assert(s.skip(1)[j] == s[j + 1]);
        }
        if lo - 1 < s.len() - 1 {
            assert(s.skip(1)[lo - 1] == s[lo]);
        }
        lemma_leading_zeros_is(s.skip(1), lo - 1);
    }
}

/// The mirror statement for the trailing zero count.
pub proof fn lemma_trailing_zeros_is(s: Seq<char>, n: int)
    requires
        0 <= n <= s.len(),
        forall|j: int| s.len() - n <= j < s.len() ==> #[trigger] s[j] == '0',
        n < s.len() ==> s[s.len() - n - 1] != '0',
    ensures
        trailing_zeros(s) == n,
    decreases s.len(),
{
    if n == 0 {
    } else {
        assert(s.last() == '0');
        assert forall|j: int| s.len() - n <= j < s.len() - 1 implies #[trigger] s.drop_last()[j]
            == '0' by {
            assert(s.drop_last()[j] == s[j]);
        }
        if n - 1 < s.len() - 1 {
            assert(s.drop_last()[s.len() - n - 1] == s[s.len() - n - 1]);
        }
        lemma_trailing_zeros_is(s.drop_last(), n - 1);
    }
}

/// Ten to a sum is the product of the powers.
pub proof fn lemma_pow10_adds(a: nat, b: nat)
    ensures
        pow10(a + b) == pow10(a) * pow10(b),
    decreases a,
{
    if a == 0 {
        assert(pow10(0) == 1);
        assert(pow10(a + b) == 1 * pow10(b)) by (nonlinear_arith)
            requires
                a == 0,
                pow10(0) == 1,
                pow10(a + b) == pow10(b),
        ;
        assert(pow10(a + b) == pow10(a) * pow10(b));
    } else {
        lemma_pow10_adds((a - 1) as nat, b);
        let p = pow10((a - 1) as nat);
        let q = pow10(b);
        assert(pow10(a + b) == 10 * pow10((a + b - 1) as nat));
        assert((a + b - 1) as nat == (a - 1) as nat + b);
        assert(pow10((a + b - 1) as nat) == p * q);
        assert(pow10(a) == 10 * p);
        assert(10 * (p * q) == (10 * p) * q) by (nonlinear_arith);
        assert(pow10(a + b) == pow10(a) * pow10(b));
    }
}

/// Powers of ten do not decrease.
pub proof fn lemma_pow10_mono(a: nat, b: nat)
    requires
        a <= b,
    ensures
        pow10(a) <= pow10(b),
        pow10(a) >= 1,
    decreases b,
{
    if b == 0 {
    } else if a == b {
        lemma_pow10_mono(0, (b - 1) as nat);
    } else {
        lemma_pow10_mono(a, (b - 1) as nat);
    }
}

/// Relies on `String`'s `FromIterator<char>` impl: collecting characters
/// yields a string holding exactly those characters in order.
#[verifier::external_body]
pub(crate) fn chars_to_string(v: &Vec<char>) -> (s: String)
    ensures
        s@ == v@,
{
    v.iter().collect()
}

/// The characters of a string, in order, as a vector.
pub(crate) fn str_to_chars(s: &str) -> (v: Vec<char>)
    ensures
        v@ == s@,
{
    let n = s.unicode_len();
    let mut v: Vec<char> = Vec::new();
    let mut i: usize = 0;
    while i < n
        invariant
            i <= n,
            n == s@.len(),
            v@ == s@.take(i as int),
        decreases n - i,
    {
        v.push(s.get_char(i));
        assert(v@ =~= s@.take(i + 1));
        i = i + 1;
    }
    assert(v@ =~= s@);
    v
}

/// The bounds of the text left when surrounding whitespace goes: returns
/// `(lo, hi)` with `s[lo..hi]` the trimmed text (empty when all whitespace).
pub(crate) fn trim_range(s: &Vec<char>) -> (r: (usize, usize))
    ensures
        r.0 <= r.1 <= s@.len(),
        s@.subrange(r.0 as int, r.1 as int) == trim_ws(s@),
        (r.0 == r.1) == is_blank(s@),
{
    let n = s.len();
    let mut lo: usize = 0;
    while lo < n && is_ws_x(s[lo])
        invariant
            lo <= n == s@.len(),
            forall|j: int| 0 <= j < lo ==> is_ws(#[trigger] s@[j]),
        decreases n - lo,
    {
        lo = lo + 1;
    }
    proof {
        lemma_leading_ws_is(s@, lo as int);
    }
    if lo == n {
        proof {
            assert(trim_ws(s@) =~= s@.subrange(n as int, n as int));
        }
        return (n, n);
    }
    assert(!is_blank(s@));
    let mut hi: usize = n;
    while hi > lo && is_ws_x(s[hi - 1])
        invariant
            lo < hi <= n == s@.len(),
            !is_ws(s@[lo as int]),
            forall|j: int| hi <= j < n ==> is_ws(#[trigger] s@[j]),
        decreases hi,
    {
        assert(hi - 1 > lo);
        hi = hi - 1;
    }
    proof {
        lemma_trailing_ws_is(s@, (n - hi) as int);
    }
    (lo, hi)
}

/// Append the characters of a string slice.
pub(crate) fn push_str(buf: &mut Vec<char>, s: &str)
    ensures
        final(buf)@ == old(buf)@ + s@,
{
    let n = s.unicode_len();
    let mut i: usize = 0;
    while i < n
        invariant
            i <= n,
            n == s@.len(),
            buf@ == old(buf)@ + s@.take(i as int),
        decreases n - i,
    {
        buf.push(s.get_char(i));
        assert(buf@ =~= old(buf)@ + s@.take(i + 1));
        i = i + 1;
    }
    assert(buf@ =~= old(buf)@ + s@);
}

/// Append the decimal rendering of a signed number.
pub(crate) fn push_signed(buf: &mut Vec<char>, v: i64)
    ensures
        final(buf)@ == old(buf)@ + fmt_signed(v as int),
{
    let a: u64 = if v < 0 {
        (-(v as i128)) as u64
    } else {
        v as u64
    };
    if v < 0 {
        buf.push('-');
    }
    push_dec_u64(buf, a);
    assert(buf@ =~= old(buf)@ + fmt_signed(v as int));
}

/// Append the decimal rendering of a signed 32-bit number.
pub(crate) fn push_signed32(buf: &mut Vec<char>, v: i32)
    ensures
        final(buf)@ == old(buf)@ + fmt_signed(v as int),
{
    push_signed(buf, v as i64);
}

pub(crate) fn is_digit_x(c: char) -> (b: bool)
    ensures
        b == is_digit(c),
{
    c >= '0' && c <= '9'
}

pub(crate) fn is_ws_x(c: char) -> (b: bool)
    ensures
        b == is_ws(c),
{
    c == ' ' || c == '\t' || c == '\n' || c == '\r' || c == '\u{b}' || c == '\u{c}'
}

pub(crate) fn digit_val_x(c: char) -> (d: u32)
    requires
        is_digit(c),
    ensures
        d as nat == digit_val(c),
        d <= 9,
{
    c as u32 - 48
}

pub(crate) fn digit_char_x(d: u64) -> (c: char)
    requires
        d <= 9,
    ensures
        c == digit_char(d as nat),
{
    match d {
        0 => '0',
        1 => '1',
        2 => '2',
        3 => '3',
        4 => '4',
        5 => '5',
        6 => '6',
        7 => '7',
        8 => '8',
        _ => '9',
    }
}

/// Where the digit run starting at `i` ends, executably.
pub(crate) fn digits_end_x(s: &Vec<char>, i: usize) -> (e: usize)
    requires
        i <= s@.len(),
    ensures
        e as int == digits_end(s@, i as int),
        i <= e <= s@.len(),
{
    let n = s.len();
    let mut e = i;
    while e < n && is_digit_x(s[e])
        invariant
            i <= e <= n,
            n == s@.len(),
            digits_end(s@, i as int) == digits_end(s@, e as int),
        decreases n - e,
    {
        e = e + 1;
    }
    proof {
        lemma_digits_end(s@, e as int);
    }
    e
}

/// The value of the digit run `s[from..to]`, capped: `None` when it
/// exceeds `cap`.
pub(crate) fn digits_to_val(s: &Vec<char>, from: usize, to: usize, cap: u64) -> (r: Option<u64>)
    requires
        from <= to <= s@.len(),
        all_digits(s@.subrange(from as int, to as int)),
    ensures
        match r {
            Some(v) => v as nat == digits_val(s@.subrange(from as int, to as int)) && v <= cap,
            None => digits_val(s@.subrange(from as int, to as int)) > cap,
        },
{
    let mut v: u64 = 0;
    let mut over: bool = false;
    let mut i = from;
    while i < to
        invariant
            from <= i <= to <= s@.len(),
            all_digits(s@.subrange(from as int, to as int)),
            !over ==> v as nat == digits_val(s@.subrange(from as int, i as int)) && v <= cap,
            over ==> digits_val(s@.subrange(from as int, i as int)) > cap,
        decreases to - i,
    {
        assert(is_digit(s@[i as int])) by {
            assert(s@.subrange(from as int, to as int)[i - from] == s@[i as int]);
        }
        let d = digit_val_x(s[i]) as u64;
        proof {
            let a = s@.subrange(from as int, i as int);
            let b = s@.subrange(from as int, i + 1);
            assert(b.drop_last() =~= a);
            assert(b.last() == s@[i as int]);
            assert(digits_val(b) == digits_val(a) * 10 + digit_val(s@[i as int]));
        }
        if over {
        } else if v > cap / 10 || (v == cap / 10 && d > cap % 10) {
            over = true;
            proof {
                let old_val = digits_val(s@.subrange(from as int, i as int));
                let new_val = digits_val(s@.subrange(from as int, i + 1));
                assert(new_val == old_val * 10 + digit_val(s@[i as int]));
                assert(new_val > cap);
            }
        } else {
            v = v * 10 + d;
        }
        i = i + 1;
    }
    if over {
        None
    } else {
        Some(v)
    }
}

/// Append the decimal rendering of `n`.
pub(crate) fn push_dec_u64(buf: &mut Vec<char>, n: u64)
    ensures
        final(buf)@ == old(buf)@ + dec_digits(n as nat),
    decreases n,
{
    if n < 10 {
        buf.push(digit_char_x(n));
        assert(buf@ =~= old(buf)@ + dec_digits(n as nat));
    } else {
        push_dec_u64(buf, n / 10);
        buf.push(digit_char_x(n % 10));
        assert(dec_digits(n as nat) == dec_digits((n as nat) / 10).push(
            digit_char((n as nat) % 10),
        ));
        assert((n / 10) as nat == (n as nat) / 10);
        assert((n % 10) as nat == (n as nat) % 10);
        assert(buf@ =~= old(buf)@ + dec_digits(n as nat));
    }
}

} // verus!
