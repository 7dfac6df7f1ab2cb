//! Character-level building blocks: whitespace, trimming, decimal digits.

use vstd::prelude::*;

verus! {

/// The Unicode `White_Space` property, which is what `char::is_whitespace`
/// and the `\s` class of a Unicode-aware pattern test.
pub open spec fn is_ws(c: char) -> bool {
    let u = c as u32;
    ||| 0x09 <= u <= 0x0D
    ||| u == 0x20
    ||| u == 0x85
    ||| u == 0xA0
    ||| u == 0x1680
    ||| 0x2000 <= u <= 0x200A
    ||| u == 0x2028
    ||| u == 0x2029
    ||| u == 0x202F
    ||| u == 0x205F
    ||| u == 0x3000
}

/// Whether `c` is white space.
pub(crate) fn char_is_ws(c: char) -> (r: bool)
    ensures
        r == is_ws(c),
{
    let u = c as u32;
    (0x09 <= u && u <= 0x0D) || u == 0x20 || u == 0x85 || u == 0xA0 || u == 0x1680 || (0x2000
        <= u && u <= 0x200A) || u == 0x2028 || u == 0x2029 || u == 0x202F || u == 0x205F || u
        == 0x3000
}

/// `s` without its leading white space.
pub open spec fn trim_start(s: Seq<char>) -> Seq<char>
    decreases s.len(),
{
    if s.len() > 0 && is_ws(s[0]) {
        trim_start(s.drop_first())
    } else {
        s
    }
}

/// `s` without its trailing white space.
pub open spec fn trim_end(s: Seq<char>) -> Seq<char>
    decreases s.len(),
{
    if s.len() > 0 && is_ws(s.last()) {
        trim_end(s.drop_last())
    } else {
        s
    }
}

/// `s` without white space at either end, as `str::trim` gives it.
pub open spec fn trim(s: Seq<char>) -> Seq<char> {
    trim_end(trim_start(s))
}

/// The bounds of the trimmed part of `v[lo..hi]`.
pub(crate) fn trim_bounds(v: &Vec<char>, lo: usize, hi: usize) -> (r: (usize, usize))
    requires
        lo <= hi <= v.len(),
    ensures
        lo <= r.0 <= r.1 <= hi,
        v@.subrange(r.0 as int, r.1 as int) == trim(v@.subrange(lo as int, hi as int)),
{
    let mut a = lo;
    while a < hi && char_is_ws(v[a])
        invariant
            lo <= a <= hi <= v.len(),
            trim_start(v@.subrange(a as int, hi as int)) == trim_start(
                v@.subrange(lo as int, hi as int),
            ),
        decreases hi - a,
    {
        assert(v@.subrange(a as int, hi as int).drop_first() =~= v@.subrange(
            a + 1,
            hi as int,
        ));
        a = a + 1;
    }
    let mut b = hi;
    while b > a && char_is_ws(v[b - 1])
        invariant
            lo <= a <= b <= hi <= v.len(),
            trim_start(v@.subrange(a as int, hi as int)) == v@.subrange(a as int, hi as int),
            trim_end(v@.subrange(a as int, b as int)) == trim_end(
                v@.subrange(a as int, hi as int),
            ),
        decreases b - a,
    {
        assert(v@.subrange(a as int, b as int).drop_last() =~= v@.subrange(
            a as int,
            b - 1,
        ));
        b = b - 1;
    }
    (a, b)
}


/// A decimal digit in the Unicode sense (general category Nd), as the `\d`
/// class of a Unicode-aware pattern matches it (Unicode 16.0).
pub open spec fn is_decimal(c: char) -> bool {
    let u = c as u32;
    ||| 0x30 <= u <= 0x39
    ||| 0x660 <= u <= 0x669
    ||| 0x6F0 <= u <= 0x6F9
    ||| 0x7C0 <= u <= 0x7C9
    ||| 0x966 <= u <= 0x96F
    ||| 0x9E6 <= u <= 0x9EF
    ||| 0xA66 <= u <= 0xA6F
    ||| 0xAE6 <= u <= 0xAEF
    ||| 0xB66 <= u <= 0xB6F
    ||| 0xBE6 <= u <= 0xBEF
    ||| 0xC66 <= u <= 0xC6F
    ||| 0xCE6 <= u <= 0xCEF
    ||| 0xD66 <= u <= 0xD6F
    ||| 0xDE6 <= u <= 0xDEF
    ||| 0xE50 <= u <= 0xE59
    ||| 0xED0 <= u <= 0xED9
    ||| 0xF20 <= u <= 0xF29
    ||| 0x1040 <= u <= 0x1049
    ||| 0x1090 <= u <= 0x1099
    ||| 0x17E0 <= u <= 0x17E9
    ||| 0x1810 <= u <= 0x1819
    ||| 0x1946 <= u <= 0x194F
    ||| 0x19D0 <= u <= 0x19D9
    ||| 0x1A80 <= u <= 0x1A89
    ||| 0x1A90 <= u <= 0x1A99
    ||| 0x1B50 <= u <= 0x1B59
    ||| 0x1BB0 <= u <= 0x1BB9
    ||| 0x1C40 <= u <= 0x1C49
    ||| 0x1C50 <= u <= 0x1C59
    ||| 0xA620 <= u <= 0xA629
    ||| 0xA8D0 <= u <= 0xA8D9
    ||| 0xA900 <= u <= 0xA909
    ||| 0xA9D0 <= u <= 0xA9D9
    ||| 0xA9F0 <= u <= 0xA9F9
    ||| 0xAA50 <= u <= 0xAA59
    ||| 0xABF0 <= u <= 0xABF9
    ||| 0xFF10 <= u <= 0xFF19
    ||| 0x104A0 <= u <= 0x104A9
    ||| 0x10D30 <= u <= 0x10D39
    ||| 0x10D40 <= u <= 0x10D49
    ||| 0x11066 <= u <= 0x1106F
    ||| 0x110F0 <= u <= 0x110F9
    ||| 0x11136 <= u <= 0x1113F
    ||| 0x111D0 <= u <= 0x111D9
    ||| 0x112F0 <= u <= 0x112F9
    ||| 0x11450 <= u <= 0x11459
    ||| 0x114D0 <= u <= 0x114D9
    ||| 0x11650 <= u <= 0x11659
    ||| 0x116C0 <= u <= 0x116C9
    ||| 0x116D0 <= u <= 0x116E3
    ||| 0x11730 <= u <= 0x11739
    ||| 0x118E0 <= u <= 0x118E9
    ||| 0x11950 <= u <= 0x11959
    ||| 0x11BF0 <= u <= 0x11BF9
    ||| 0x11C50 <= u <= 0x11C59
    ||| 0x11D50 <= u <= 0x11D59
    ||| 0x11DA0 <= u <= 0x11DA9
    ||| 0x11F50 <= u <= 0x11F59
    ||| 0x16130 <= u <= 0x16139
    ||| 0x16A60 <= u <= 0x16A69
    ||| 0x16AC0 <= u <= 0x16AC9
    ||| 0x16B50 <= u <= 0x16B59
    ||| 0x16D70 <= u <= 0x16D79
    ||| 0x1CCF0 <= u <= 0x1CCF9
    ||| 0x1D7CE <= u <= 0x1D7FF
    ||| 0x1E140 <= u <= 0x1E149
    ||| 0x1E2F0 <= u <= 0x1E2F9
    ||| 0x1E4F0 <= u <= 0x1E4F9
    ||| 0x1E5F1 <= u <= 0x1E5FA
    ||| 0x1E950 <= u <= 0x1E959
    ||| 0x1FBF0 <= u <= 0x1FBF9
}

/// Whether `c` is a Unicode decimal digit.
pub(crate) fn char_is_decimal(c: char) -> (r: bool)
    ensures
        r == is_decimal(c),
{
    let u = c as u32;
    (0x30 <= u && u <= 0x39) ||
        (0x660 <= u && u <= 0x669) ||
        (0x6F0 <= u && u <= 0x6F9) ||
        (0x7C0 <= u && u <= 0x7C9) ||
        (0x966 <= u && u <= 0x96F) ||
        (0x9E6 <= u && u <= 0x9EF) ||
        (0xA66 <= u && u <= 0xA6F) ||
        (0xAE6 <= u && u <= 0xAEF) ||
        (0xB66 <= u && u <= 0xB6F) ||
        (0xBE6 <= u && u <= 0xBEF) ||
        (0xC66 <= u && u <= 0xC6F) ||
        (0xCE6 <= u && u <= 0xCEF) ||
        (0xD66 <= u && u <= 0xD6F) ||
        (0xDE6 <= u && u <= 0xDEF) ||
        (0xE50 <= u && u <= 0xE59) ||
        (0xED0 <= u && u <= 0xED9) ||
        (0xF20 <= u && u <= 0xF29) ||
        (0x1040 <= u && u <= 0x1049) ||
        (0x1090 <= u && u <= 0x1099) ||
        (0x17E0 <= u && u <= 0x17E9) ||
        (0x1810 <= u && u <= 0x1819) ||
        (0x1946 <= u && u <= 0x194F) ||
        (0x19D0 <= u && u <= 0x19D9) ||
        (0x1A80 <= u && u <= 0x1A89) ||
        (0x1A90 <= u && u <= 0x1A99) ||
        (0x1B50 <= u && u <= 0x1B59) ||
        (0x1BB0 <= u && u <= 0x1BB9) ||
        (0x1C40 <= u && u <= 0x1C49) ||
        (0x1C50 <= u && u <= 0x1C59) ||
        (0xA620 <= u && u <= 0xA629) ||
        (0xA8D0 <= u && u <= 0xA8D9) ||
        (0xA900 <= u && u <= 0xA909) ||
        (0xA9D0 <= u && u <= 0xA9D9) ||
        (0xA9F0 <= u && u <= 0xA9F9) ||
        (0xAA50 <= u && u <= 0xAA59) ||
        (0xABF0 <= u && u <= 0xABF9) ||
        (0xFF10 <= u && u <= 0xFF19) ||
        (0x104A0 <= u && u <= 0x104A9) ||
        (0x10D30 <= u && u <= 0x10D39) ||
        (0x10D40 <= u && u <= 0x10D49) ||
        (0x11066 <= u && u <= 0x1106F) ||
        (0x110F0 <= u && u <= 0x110F9) ||
        (0x11136 <= u && u <= 0x1113F) ||
        (0x111D0 <= u && u <= 0x111D9) ||
        (0x112F0 <= u && u <= 0x112F9) ||
        (0x11450 <= u && u <= 0x11459) ||
        (0x114D0 <= u && u <= 0x114D9) ||
        (0x11650 <= u && u <= 0x11659) ||
        (0x116C0 <= u && u <= 0x116C9) ||
        (0x116D0 <= u && u <= 0x116E3) ||
        (0x11730 <= u && u <= 0x11739) ||
        (0x118E0 <= u && u <= 0x118E9) ||
        (0x11950 <= u && u <= 0x11959) ||
        (0x11BF0 <= u && u <= 0x11BF9) ||
        (0x11C50 <= u && u <= 0x11C59) ||
        (0x11D50 <= u && u <= 0x11D59) ||
        (0x11DA0 <= u && u <= 0x11DA9) ||
        (0x11F50 <= u && u <= 0x11F59) ||
        (0x16130 <= u && u <= 0x16139) ||
        (0x16A60 <= u && u <= 0x16A69) ||
        (0x16AC0 <= u && u <= 0x16AC9) ||
        (0x16B50 <= u && u <= 0x16B59) ||
        (0x16D70 <= u && u <= 0x16D79) ||
        (0x1CCF0 <= u && u <= 0x1CCF9) ||
        (0x1D7CE <= u && u <= 0x1D7FF) ||
        (0x1E140 <= u && u <= 0x1E149) ||
        (0x1E2F0 <= u && u <= 0x1E2F9) ||
        (0x1E4F0 <= u && u <= 0x1E4F9) ||
        (0x1E5F1 <= u && u <= 0x1E5FA) ||
        (0x1E950 <= u && u <= 0x1E959) ||
        (0x1FBF0 <= u && u <= 0x1FBF9)
}

/// An ASCII decimal digit.
pub open spec fn is_digit(c: char) -> bool {
    '0' <= c && c <= '9'
}

/// The number that an ASCII digit stands for.
pub open spec fn digit_value(c: char) -> nat {
    (c as u32 - '0' as u32) as nat
}

/// `10` to the power `n`.
pub open spec fn pow10(n: nat) -> nat
    decreases n,
{
    if n == 0 {
        1
    } else {
        10 * pow10((n - 1) as nat)
    }
}

/// The number that a string of decimal digits denotes, leading zeros allowed.
pub open spec fn digits_value(s: Seq<char>) -> nat
    decreases s.len(),
{
    if s.len() == 0 {
        0
    } else {
        digits_value(s.drop_last()) * 10 + digit_value(s.last())
    }
}

/// Every character of `s` is an ASCII digit.
pub open spec fn all_digits(s: Seq<char>) -> bool {
    forall|i: int| 0 <= i < s.len() ==> is_digit(#[trigger] s[i])
}

/// The largest value of `i64`, as a natural number.
pub open spec fn i64_max() -> nat {
    0x7fff_ffff_ffff_ffff
}

/// `x`, or `limit` where `x` is larger.
pub open spec fn capped(x: nat, limit: nat) -> nat {
    if x > limit {
        limit
    } else {
        x
    }
}

/// `x`, or the largest `i64` where `x` is larger.
pub open spec fn cap(x: nat) -> nat {
    capped(x, i64_max())
}

/// Powers of ten are positive.
pub(crate) proof fn lemma_pow10_positive(n: nat)
    ensures
        pow10(n) >= 1,
    decreases n,
{
    if n > 0 {
        lemma_pow10_positive((n - 1) as nat);
    }
}

/// `10^(a+b) == 10^a * 10^b`.
pub(crate) proof fn lemma_pow10_adds(a: nat, b: nat)
    ensures
        pow10(a + b) == pow10(a) * pow10(b),
    decreases b,
{
    if b > 0 {
        let b1 = (b - 1) as nat;
        lemma_pow10_adds(a, b1);
        let x = pow10(a);
        let y = pow10(b1);
        assert(pow10(a + b) == 10 * pow10((a + b1) as nat));
        assert(pow10(b) == 10 * y);
        assert(x * (10 * y) == 10 * (x * y)) by (nonlinear_arith);
    } else {
        assert(a + b == a);
        assert(pow10(a) * 1 == pow10(a));
    }
}

/// A digit string's value is below the next power of ten.
pub(crate) proof fn lemma_digits_value_bound(s: Seq<char>)
    requires
        all_digits(s),
    ensures
        digits_value(s) < pow10(s.len()),
    decreases s.len(),
{
    if s.len() > 0 {
        let t = s.drop_last();
        assert(all_digits(t)) by {
            assert forall|i: int| 0 <= i < t.len() implies is_digit(#[trigger] t[i]) by {
                assert(t[i] == s[i]);
            }
        }
        lemma_digits_value_bound(t);
        assert(is_digit(s[s.len() - 1]));
        let v = digits_value(t);
        let p = pow10(t.len());
        assert(digit_value(s.last()) <= 9);
        assert(v * 10 + digit_value(s.last()) < 10 * p) by (nonlinear_arith)
            requires
                v < p,
                digit_value(s.last()) <= 9,
        ;
    }
}

/// The value of two digit strings written one after the other.
pub(crate) proof fn lemma_digits_value_concat(a: Seq<char>, b: Seq<char>)
    ensures
        digits_value(a + b) == digits_value(a) * pow10(b.len()) + digits_value(b),
    decreases b.len(),
{
    if b.len() == 0 {
        assert(a + b =~= a);
        assert(digits_value(a) * 1 == digits_value(a));
    } else {
        let b0 = b.drop_last();
        lemma_digits_value_concat(a, b0);
        assert((a + b).drop_last() =~= a + b0);
        assert((a + b).last() == b.last());
        let va = digits_value(a);
        let p = pow10(b0.len());
        let vb0 = digits_value(b0);
        let d = digit_value(b.last());
        assert(pow10(b.len()) == 10 * p);
        assert(digits_value(a + b) == digits_value(a + b0) * 10 + d);
        assert(digits_value(b) == vb0 * 10 + d);
        assert((va * p + vb0) * 10 + d == va * (10 * p) + (vb0 * 10 + d)) by (nonlinear_arith);
    }
}

/// Saturating accumulation of digits: the value of `v[lo..hi]` appended to a
/// number `e0` of which `acc0` holds the value capped at `limit`.
pub(crate) fn accumulate_digits(
    v: &Vec<char>,
    lo: usize,
    hi: usize,
    acc0: u128,
    Ghost(e0): Ghost<nat>,
    limit: u128,
) -> (r: u128)
    requires
        lo <= hi <= v.len(),
        all_digits(v@.subrange(lo as int, hi as int)),
        limit <= 0x1_0000_0000_0000_0000,
        acc0 == capped(e0, limit as nat),
    ensures
        r == capped(
            e0 * pow10((hi - lo) as nat) + digits_value(v@.subrange(lo as int, hi as int)),
            limit as nat,
        ),
{
    let mut acc = acc0;
    let mut i = lo;
    assert(v@.subrange(lo as int, lo as int) =~= Seq::<char>::empty());
    assert(pow10(0) == 1);
    assert(e0 * 1 == e0);
    while i < hi
        invariant
            lo <= i <= hi <= v.len(),
            all_digits(v@.subrange(lo as int, hi as int)),
            limit <= 0x1_0000_0000_0000_0000,
            acc == capped(
                e0 * pow10((i - lo) as nat) + digits_value(v@.subrange(lo as int, i as int)),
                limit as nat,
            ),
        decreases hi - i,
    {
        let c = v[i];
        assert(is_digit(v@.subrange(lo as int, hi as int)[i - lo]));
        let d = (c as u32 - '0' as u32) as u128;
        let ghost old_exact = e0 * pow10((i - lo) as nat) + digits_value(
            v@.subrange(lo as int, i as int),
        );
        let ghost sub = v@.subrange(lo as int, i + 1);
        assert(sub.drop_last() =~= v@.subrange(lo as int, i as int));
        assert(sub.last() == c);
        assert(digits_value(sub) == digits_value(v@.subrange(lo as int, i as int)) * 10 + d);
        assert(pow10((i + 1 - lo) as nat) == 10 * pow10((i - lo) as nat));
        let ghost new_exact = e0 * pow10((i + 1 - lo) as nat) + digits_value(sub);
        assert(new_exact == old_exact * 10 + d) by (nonlinear_arith)
            requires
                new_exact == e0 * pow10((i + 1 - lo) as nat) + digits_value(sub),
                pow10((i + 1 - lo) as nat) == 10 * pow10((i - lo) as nat),
                digits_value(sub) == digits_value(v@.subrange(lo as int, i as int)) * 10 + d,
                old_exact == e0 * pow10((i - lo) as nat) + digits_value(
                    v@.subrange(lo as int, i as int),
                ),
        ;
        let next = acc * 10 + d;
        if next > limit {
            acc = limit;
        } else {
            acc = next;
        }
        i = i + 1;
    }
    acc
}

/// The characters of `s`, in order.
pub(crate) fn chars_of(s: &str) -> (r: Vec<char>)
    ensures
        r@ == s@,
{
    broadcast use vstd::string::group_string_axioms;
    let mut v: Vec<char> = Vec::new();
    for c in iter: s.chars()
        invariant
            v@ == iter.seq().take(iter.index() as int),
    {
        v.push(c);
    }
    assert(v@ =~= s@);
    v
}


/// The text of the chars of `v`.
///
/// Trusted: calls `FromIterator<char>` for `String` (through `collect`), which
/// std documents as building the string of the iterated chars in order.
#[verifier::external_body]
pub(crate) fn string_from_chars(v: &Vec<char>) -> (r: String)
    ensures
        r@ == v@,
{
    v.iter().collect()
}

/// The ASCII digit for `d`, which is below ten.
pub open spec fn digit_char(d: nat) -> char {
    ((48 + d) as u8) as char
}

/// The decimal digits of `n`, without leading zeros ("0" for zero).
pub open spec fn nat_decimal(n: nat) -> Seq<char>
    decreases n,
{
    if n < 10 {
        seq![digit_char(n)]
    } else {
        nat_decimal(n / 10).push(digit_char(n % 10))
    }
}

/// `n` written in decimal as `Display` writes an integer: a minus sign for a
/// negative number, then the digits.
pub open spec fn int_decimal(n: int) -> Seq<char> {
    if n < 0 {
        seq!['-'] + nat_decimal((-n) as nat)
    } else {
        nat_decimal(n as nat)
    }
}

/// Appends the decimal digits of `n` to `out`.
pub(crate) fn push_nat_decimal(n: u64, out: &mut Vec<char>)
    ensures
        final(out)@ == old(out)@ + nat_decimal(n as nat),
    decreases n,
{
    if n < 10 {
        out.push((48u8 + n as u8) as char);
        assert(old(out)@ + nat_decimal(n as nat) =~= old(out)@.push(digit_char(n as nat)));
    } else {
        push_nat_decimal(n / 10, out);
        let d = (n % 10) as u8;
        out.push((48u8 + d) as char);
        assert(old(out)@ + nat_decimal(n as nat) =~= (old(out)@ + nat_decimal((n / 10) as nat)).push(
            digit_char((n % 10) as nat),
        ));
    }
}

/// Appends `n` in decimal, with a minus sign where it is negative, to `out`.
pub(crate) fn push_int_decimal(n: i64, out: &mut Vec<char>)
    ensures
        final(out)@ == old(out)@ + int_decimal(n as int),
{
    if n < 0 {
        out.push('-');
        let m: u64 = (-(n as i128)) as u64;
        push_nat_decimal(m, out);
        assert(old(out)@ + int_decimal(n as int) =~= old(out)@.push('-') + nat_decimal(m as nat));
    } else {
        push_nat_decimal(n as u64, out);
    }
}


/// Appends `v[lo..hi]` to `out`.
pub(crate) fn push_range(out: &mut Vec<char>, v: &Vec<char>, lo: usize, hi: usize)
    requires
        lo <= hi <= v.len(),
    ensures
        final(out)@ == old(out)@ + v@.subrange(lo as int, hi as int),
{
    let mut i = lo;
    while i < hi
        invariant
            lo <= i <= hi <= v.len(),
            out@ == old(out)@ + v@.subrange(lo as int, i as int),
        decreases hi - i,
    {
        out.push(v[i]);
        assert(old(out)@ + v@.subrange(lo as int, i + 1) =~= (old(out)@ + v@.subrange(
            lo as int,
            i as int,
        )).push(v@[i as int]));
        i = i + 1;
    }
}

/// The chars `v[lo..hi]`, copied.
pub(crate) fn copy_range(v: &Vec<char>, lo: usize, hi: usize) -> (r: Vec<char>)
    requires
        lo <= hi <= v.len(),
    ensures
        r@ == v@.subrange(lo as int, hi as int),
{
    let mut r: Vec<char> = Vec::new();
    push_range(&mut r, v, lo, hi);
    assert(r@ =~= v@.subrange(lo as int, hi as int));
    r
}


/// The integer that `s` spells as `str::parse` reads integers: an optional
/// '+' (or '-' where `signed`), then one or more ASCII digits.
pub open spec fn int_syntax(s: Seq<char>, signed: bool) -> Option<int> {
    if s.len() == 0 {
        None
    } else if (s[0] == '+' || s[0] == '-') && s.len() == 1 {
        None
    } else if s[0] == '+' {
        if all_digits(s.drop_first()) {
            Some(digits_value(s.drop_first()) as int)
        } else {
            None
        }
    } else if s[0] == '-' && signed {
        if all_digits(s.drop_first()) {
            Some(-(digits_value(s.drop_first()) as int))
        } else {
            None
        }
    } else if all_digits(s) {
        Some(digits_value(s) as int)
    } else {
        None
    }
}

/// What `str::parse` gives for an integer type whose values are `lo..=hi`.
pub open spec fn parse_int(s: Seq<char>, signed: bool, lo: int, hi: int) -> Option<int> {
    match int_syntax(s, signed) {
        Some(v) => if lo <= v <= hi {
            Some(v)
        } else {
            None
        },
        None => None,
    }
}

/// `v[lo..hi]` are all digits.
pub(crate) fn check_digits(v: &Vec<char>, lo: usize, hi: usize) -> (r: bool)
    requires
        lo <= hi <= v.len(),
    ensures
        r == all_digits(v@.subrange(lo as int, hi as int)),
{
    let mut i = lo;
    while i < hi
        invariant
            lo <= i <= hi <= v.len(),
            all_digits(v@.subrange(lo as int, i as int)),
        decreases hi - i,
    {
        if !('0' <= v[i] && v[i] <= '9') {
            assert(!is_digit(v@.subrange(lo as int, hi as int)[i - lo]));
            return false;
        }
        assert(all_digits(v@.subrange(lo as int, i + 1))) by {
            assert forall|t: int| 0 <= t < i + 1 - lo implies is_digit(
                #[trigger] v@.subrange(lo as int, i + 1)[t],
            ) by {
                if t < i - lo {
                    assert(v@.subrange(lo as int, i + 1)[t] == v@.subrange(lo as int, i as int)[t]);
                }
            }
        }
        i = i + 1;
    }
    true
}

/// Reads the integer in `v[lo..hi]` as `str::parse` does, for a type with
/// values `min..=max`.
pub(crate) fn parse_int_chars(v: &Vec<char>, lo: usize, hi: usize, signed: bool, min: i128, max: i128) -> (r: Option<i128>)
    requires
        lo <= hi <= v.len(),
        -0x1_0000_0000_0000_0000 < min <= 0 < max < 0x1_0000_0000_0000_0000,
    ensures
        match r {
            Some(x) => parse_int(v@.subrange(lo as int, hi as int), signed, min as int, max as int)
                == Some(x as int),
            None => parse_int(v@.subrange(lo as int, hi as int), signed, min as int, max as int)
                is None,
        },
{
    let ghost s = v@.subrange(lo as int, hi as int);
    if lo == hi {
        return None;
    }
    let c = v[lo];
    if (c == '+' || c == '-') && hi - lo == 1 {
        return None;
    }
    let negative = c == '-' && signed;
    let start = if c == '+' || negative {
        lo + 1
    } else {
        lo
    };
    assert(start > lo ==> s.drop_first() =~= v@.subrange(start as int, hi as int));
    assert(start == lo ==> s =~= v@.subrange(start as int, hi as int));
    if !check_digits(v, start, hi) {
        return None;
    }
    let ghost mag = digits_value(v@.subrange(start as int, hi as int));
    proof {
        assert(capped(0, 0x1_0000_0000_0000_0000) == 0);
        assert(0 * pow10((hi - start) as nat) + mag == mag);
    }
    let m = accumulate_digits(v, start, hi, 0, Ghost(0), 0x1_0000_0000_0000_0000);
    assert(m == capped(mag, 0x1_0000_0000_0000_0000));
    assert(int_syntax(s, signed) == Some(if negative {
        -(mag as int)
    } else {
        mag as int
    }));
    if negative {
        if m > (-min) as u128 {
            None
        } else {
            Some(-(m as i128))
        }
    } else {
        if m > max as u128 {
            None
        } else {
            Some(m as i128)
        }
    }
}


/// `n` in decimal, as `Display` writes it.
pub fn decimal_string(n: i64) -> (r: String)
    ensures
        r@ == int_decimal(n as int),
{
    let mut v: Vec<char> = Vec::new();
    push_int_decimal(n, &mut v);
    assert(v@ =~= int_decimal(n as int));
    string_from_chars(&v)
}

/// `s` without the `c` chars at its start, as `str::trim_start_matches(c)`.
pub open spec fn strip_leading(s: Seq<char>, c: char) -> Seq<char>
    decreases s.len(),
{
    if s.len() > 0 && s[0] == c {
        strip_leading(s.drop_first(), c)
    } else {
        s
    }
}

/// `piece` stands in `text` at position `i`.
pub open spec fn occurs_at(text: Seq<char>, piece: Seq<char>, i: int) -> bool {
    0 <= i && i + piece.len() <= text.len() && text.subrange(i, i + piece.len()) == piece
}

/// `s` starts with `p`.
pub open spec fn starts_with(s: Seq<char>, p: Seq<char>) -> bool {
    p.len() <= s.len() && s.take(p.len() as int) == p
}

/// The first position at or after `i` that holds `c`.
pub open spec fn index_of(s: Seq<char>, c: char, i: int) -> Option<int>
    decreases s.len() - i,
{
    if i < 0 || i >= s.len() {
        None
    } else if s[i] == c {
        Some(i)
    } else {
        index_of(s, c, i + 1)
    }
}

/// The part of `s` before the first `c` (all of `s` where it has none).
pub open spec fn before_first(s: Seq<char>, c: char) -> Seq<char> {
    match index_of(s, c, 0) {
        Some(i) => s.take(i),
        None => s,
    }
}

/// The part of `s` after the first `c`, where it has one.
pub open spec fn after_first(s: Seq<char>, c: char) -> Option<Seq<char>> {
    match index_of(s, c, 0) {
        Some(i) => Some(s.skip(i + 1)),
        None => None,
    }
}

/// The first position of `c` in `v[lo..hi]`, as an index into `v`.
pub(crate) fn find_char(v: &Vec<char>, lo: usize, hi: usize, c: char) -> (r: Option<usize>)
    requires
        lo <= hi <= v.len(),
    ensures
        match r {
            Some(i) => lo <= i < hi && index_of(v@.subrange(lo as int, hi as int), c, 0) == Some(
                i - lo,
            ),
            None => index_of(v@.subrange(lo as int, hi as int), c, 0) is None,
        },
{
    let ghost s = v@.subrange(lo as int, hi as int);
    let mut i = lo;
    while i < hi
        invariant
            lo <= i <= hi <= v.len(),
            s == v@.subrange(lo as int, hi as int),
            index_of(s, c, i - lo) == index_of(s, c, 0),
        decreases hi - i,
    {
        if v[i] == c {
            return Some(i);
        }
        i = i + 1;
    }
    None
}


/// A digit char is a digit and stands for its number.
pub(crate) proof fn lemma_digit_char(d: nat)
    requires
        d < 10,
    ensures
        is_digit(digit_char(d)),
        digit_value(digit_char(d)) == d,
{
    let b = (48 + d) as u8;
    assert(b == 48 + d);
    assert((b as char) as u32 == b as u32);
}

/// The decimal digits of `n` are digits, at least one, and denote `n`.
pub(crate) proof fn lemma_nat_decimal(n: nat)
    ensures
        nat_decimal(n).len() >= 1,
        all_digits(nat_decimal(n)),
        digits_value(nat_decimal(n)) == n,
    decreases n,
{
    if n < 10 {
        lemma_digit_char(n);
        let s = nat_decimal(n);
        assert(s.drop_last() =~= Seq::<char>::empty());
        assert(s.last() == digit_char(n));
        assert(digits_value(s.drop_last()) == 0);
        assert(digits_value(s) == digits_value(s.drop_last()) * 10 + digit_value(s.last()));
    } else {
        lemma_nat_decimal(n / 10);
        lemma_digit_char(n % 10);
        let s = nat_decimal(n);
        let t = nat_decimal(n / 10);
        assert(s.drop_last() =~= t);
        assert(s.last() == digit_char(n % 10));
        assert(digits_value(s) == digits_value(t) * 10 + digit_value(s.last()));
        assert(n == (n / 10) * 10 + n % 10);
        assert(all_digits(s)) by {
            assert forall|i: int| 0 <= i < s.len() implies is_digit(#[trigger] s[i]) by {
                if i < t.len() {
                    assert(s[i] == t[i]);
                }
            }
        }
    }
}

/// Reading a decimal back gives the number: `str::parse` undoes `Display`.
pub(crate) proof fn lemma_int_decimal_parses(n: int)
    ensures
        int_syntax(int_decimal(n), true) == Some(n),
        n >= 0 ==> int_syntax(int_decimal(n), false) == Some(n),
{
    if n < 0 {
        let d = nat_decimal((-n) as nat);
        lemma_nat_decimal((-n) as nat);
        let s = int_decimal(n);
        assert(s.drop_first() =~= d);
        assert(s[0] == '-');
    } else {
        let d = nat_decimal(n as nat);
        lemma_nat_decimal(n as nat);
        assert(is_digit(d[0]));
    }
}

/// No char of a digit string is `c` where `c` is not a digit.
pub(crate) proof fn lemma_digits_lack(s: Seq<char>, c: char)
    requires
        all_digits(s),
        !is_digit(c),
    ensures
        index_of(s, c, 0) is None,
{
    lemma_digits_lack_from(s, c, 0);
}

/// `lemma_digits_lack`, from position `i` on.
proof fn lemma_digits_lack_from(s: Seq<char>, c: char, i: int)
    requires
        all_digits(s),
        !is_digit(c),
        0 <= i,
    ensures
        index_of(s, c, i) is None,
    decreases s.len() - i,
{
    if i < s.len() {
        assert(is_digit(s[i]));
        lemma_digits_lack_from(s, c, i + 1);
    }
}

/// Where `c` first stands in `a + seq![c] + b` when `a` lacks it.
pub(crate) proof fn lemma_index_after(a: Seq<char>, b: Seq<char>, c: char)
    requires
        index_of(a, c, 0) is None,
    ensures
        index_of(a + seq![c] + b, c, 0) == Some(a.len() as int),
{
    lemma_index_after_from(a, b, c, 0);
}

/// `lemma_index_after`, from position `i` on.
proof fn lemma_index_after_from(a: Seq<char>, b: Seq<char>, c: char, i: int)
    requires
        0 <= i <= a.len(),
        index_of(a, c, i) is None,
    ensures
        index_of(a + seq![c] + b, c, i) == Some(a.len() as int),
    decreases a.len() - i,
{
    let s = a + seq![c] + b;
    if i < a.len() {
        assert(s[i] == a[i]);
        lemma_index_after_from(a, b, c, i + 1);
    } else {
        assert(s[i] == c);
    }
}


/// A text in which `c` never stands has no first `c`.
pub(crate) proof fn lemma_lacks(s: Seq<char>, c: char, i: int)
    requires
        0 <= i,
        forall|k: int| 0 <= k < s.len() ==> s[k] != c,
    ensures
        index_of(s, c, i) is None,
    decreases s.len() - i,
{
    if i < s.len() {
        lemma_lacks(s, c, i + 1);
    }
}

/// A decimal holds no char other than digits and a leading '-'.
pub(crate) proof fn lemma_int_decimal_chars(n: int)
    ensures
        int_decimal(n).len() >= 1,
        forall|k: int|
            0 <= k < int_decimal(n).len() ==> is_digit(#[trigger] int_decimal(n)[k]) || (k == 0
                && int_decimal(n)[k] == '-'),
{
    if n < 0 {
        let d = nat_decimal((-n) as nat);
        lemma_nat_decimal((-n) as nat);
        assert forall|k: int| 0 < k < int_decimal(n).len() implies is_digit(
            #[trigger] int_decimal(n)[k],
        ) by {
            assert(int_decimal(n)[k] == d[k - 1]);
        }
    } else {
        lemma_nat_decimal(n as nat);
    }
}

/// Trimming leaves a text alone whose ends are not white space.
pub(crate) proof fn lemma_trim_noop(s: Seq<char>)
    requires
        s.len() > 0,
        !is_ws(s[0]),
        !is_ws(s.last()),
    ensures
        trim(s) == s,
{
}


/// What `trim_end` leaves is a prefix of the text and does not end in white
/// space.
pub(crate) proof fn lemma_trim_end_prefix(s: Seq<char>)
    ensures
        trim_end(s).len() <= s.len(),
        trim_end(s) == s.take(trim_end(s).len() as int),
        trim_end(s).len() == 0 || !is_ws(trim_end(s).last()),
    decreases s.len(),
{
    if s.len() > 0 && is_ws(s.last()) {
        lemma_trim_end_prefix(s.drop_last());
        let t = trim_end(s.drop_last());
        assert(s.drop_last().take(t.len() as int) =~= s.take(t.len() as int));
    } else {
        assert(s.take(s.len() as int) =~= s);
    }
}

/// Trimming the end twice is trimming it once.
pub(crate) proof fn lemma_trim_end_idempotent(s: Seq<char>)
    ensures
        trim_end(trim_end(s)) == trim_end(s),
{
    lemma_trim_end_prefix(s);
}

/// A char that is not white space shields the end-trimming of what follows.
pub(crate) proof fn lemma_trim_end_cons(c: char, s: Seq<char>)
    requires
        !is_ws(c),
    ensures
        trim_end(seq![c] + s) == seq![c] + trim_end(s),
    decreases s.len(),
{
    let t = seq![c] + s;
    if s.len() > 0 && is_ws(s.last()) {
        assert(t.last() == s.last());
        assert(t.drop_last() =~= seq![c] + s.drop_last());
        lemma_trim_end_cons(c, s.drop_last());
    } else if s.len() > 0 {
        assert(t.last() == s.last());
    } else {
        assert(t =~= seq![c]);
        assert(s =~= Seq::<char>::empty());
    }
}

/// Trimming the start and trimming the end can come in either order.
pub(crate) proof fn lemma_trim_commute(s: Seq<char>)
    ensures
        trim_start(trim_end(s)) == trim_end(trim_start(s)),
    decreases s.len(),
{
    if s.len() > 0 && is_ws(s[0]) {
        let s1 = s.drop_first();
        assert(trim_start(s) == trim_start(s1));
        if s.len() == 1 {
            assert(s.last() == s[0]);
            assert(s.drop_last() =~= Seq::<char>::empty());
            assert(s1 =~= Seq::<char>::empty());
            assert(trim_end(s) == trim_end(s.drop_last()));
            assert(trim_end(s) =~= Seq::<char>::empty());
        } else if !is_ws(s.last()) {
            assert(s1.last() == s.last());
            assert(trim_end(s) == s);
            assert(trim_end(s1) == s1);
            lemma_trim_commute(s1);
        } else {
            let d = s.drop_last();
            let d1 = s1.drop_last();
            assert(s1.last() == s.last());
            assert(d[0] == s[0]);
            assert(d.drop_first() =~= d1);
            assert(trim_end(s) == trim_end(d));
            assert(trim_start(d) == trim_start(d1));
            assert(trim_end(s1) == trim_end(d1));
            lemma_trim_commute(d);
            lemma_trim_commute(s1);
            lemma_trim_commute(d1);
        }
    } else {
        assert(trim_start(s) == s);
        lemma_trim_end_prefix(s);
        let t = trim_end(s);
        if t.len() > 0 {
            assert(t[0] == s[0]);
            assert(trim_start(t) == t);
        } else {
            assert(trim_start(t) == t);
        }
    }
}


/// What `trim_start` leaves is a suffix of the text and does not start with
/// white space.
pub(crate) proof fn lemma_trim_start_suffix(s: Seq<char>)
    ensures
        trim_start(s).len() <= s.len(),
        trim_start(s) == s.skip(s.len() - trim_start(s).len()),
        trim_start(s).len() == 0 || !is_ws(trim_start(s)[0]),
    decreases s.len(),
{
    if s.len() > 0 && is_ws(s[0]) {
        lemma_trim_start_suffix(s.drop_first());
        let t = trim_start(s.drop_first());
        assert(s.drop_first().skip(s.drop_first().len() - t.len()) =~= s.skip(s.len() - t.len()));
    } else {
        assert(s.skip(0) =~= s);
    }
}

/// A text that trimming leaves alone has no white space at its ends.
pub(crate) proof fn lemma_trimmed(t: Seq<char>)
    requires
        trim(t) == t,
    ensures
        trim_start(t) == t,
        trim_end(t) == t,
        t.len() > 0 ==> !is_ws(t[0]) && !is_ws(t.last()),
{
    lemma_trim_start_suffix(t);
    let ts = trim_start(t);
    lemma_trim_end_prefix(ts);
    assert(ts.len() == t.len());
    assert(t.skip(0) =~= t);
    lemma_trim_end_prefix(t);
}


/// Where `index_of` finds `c`, it is at or after `i` and inside the text.
pub proof fn lemma_index_of_bounds(s: Seq<char>, c: char, i: int)
    ensures
        index_of(s, c, i) matches Some(j) ==> 0 <= i <= j < s.len() && s[j] == c,
    decreases s.len() - i,
{
    if 0 <= i < s.len() && s[i] != c {
        lemma_index_of_bounds(s, c, i + 1);
    }
}

} // verus!
