//! Reading casual amount messages: "15k soto", "makan 15rb", "1.5jt kos",
//! "+5jt gaji". The amount may stand anywhere in the sentence; what is left
//! around it becomes the note.

use vstd::prelude::*;
use crate::text::{
    all_digits, cap, char_is_decimal, chars_of, check_digits, is_decimal, copy_range, digit_value, digits_value, is_digit, is_ws, i64_max,
    lemma_digits_value_bound, lemma_digits_value_concat, lemma_pow10_adds, lemma_pow10_positive,
    int_decimal, pow10, push_int_decimal, push_range, trim_end, trim_start,
    lemma_trim_commute, lemma_trim_end_cons, lemma_trim_end_idempotent, lemma_nat_decimal,
    lemma_trim_noop, nat_decimal, string_from_chars, trim, trim_bounds, char_is_ws, accumulate_digits,
};

verus! {

/// What a message says: an amount in whole Rupiah, a note, and whether it
/// is income (a leading `+`) rather than an expense.
#[derive(Debug, PartialEq)]
pub struct ParsedInput {
    /// The amount in whole Rupiah.
    pub amount: i64,
    /// The rest of the text, e.g. "soto".
    pub note: String,
    /// True when the message starts with '+'.
    pub is_income: bool,
}

impl View for ParsedInput {
    type V = (int, Seq<char>, bool);

    open spec fn view(&self) -> (int, Seq<char>, bool) {
        (self.amount as int, self.note@, self.is_income)
    }
}

/// The scale that a suffix after the number gives.
#[derive(Debug, Clone, Copy, PartialEq, Eq)]
pub enum Scale {
    /// `k`, `rb`, `ribu`: thousands.
    Thousand,
    /// `jt`, `juta`, `m`: millions ("1m" locally means one million).
    Million,
}

/// The factor for an optional scale.
pub open spec fn scale_factor(sc: Option<Scale>) -> nat {
    match sc {
        None => 1,
        Some(Scale::Thousand) => 1000,
        Some(Scale::Million) => 1_000_000,
    }
}

/// `c` is the lower-case ASCII letter `x` in either case; for `k` the Kelvin
/// sign counts too, as under case-insensitive Unicode matching.
pub open spec fn letter_is(c: char, x: char) -> bool {
    ||| c == x
    ||| c as u32 + 32 == x as u32
    ||| (x == 'k' && c as u32 == 0x212A)
}

/// A Latin letter: ASCII, or from the Latin-1 and Latin Extended-A/B
/// blocks (other than the signs × and ÷).
pub open spec fn is_letter(c: char) -> bool {
    let u = c as u32;
    ||| 0x41 <= u <= 0x5A
    ||| 0x61 <= u <= 0x7A
    ||| (0xC0 <= u <= 0x24F && u != 0xD7 && u != 0xF7)
}

/// A letter stands in `s` at `i`.
pub open spec fn letter_at(s: Seq<char>, i: int) -> bool {
    0 <= i < s.len() && is_letter(s[i])
}

/// The word `w` (lower-case letters) stands in `s` at `i`, in any case, as a
/// word of its own: no letter follows it ("15 kopi" has no suffix "k").
pub open spec fn word_at(s: Seq<char>, i: int, w: Seq<char>) -> bool {
    &&& 0 <= i
    &&& i + w.len() <= s.len()
    &&& forall|j: int| 0 <= j < w.len() ==> letter_is(#[trigger] s[i + j], w[j])
    &&& !letter_at(s, i + w.len())
}

/// The suffix at `i`, tried in the order k, rb, ribu, jt, juta, m: its scale
/// and its length.
pub open spec fn suffix_at(s: Seq<char>, i: int) -> Option<(Scale, nat)> {
    if word_at(s, i, seq!['k']) {
        Some((Scale::Thousand, 1))
    } else if word_at(s, i, seq!['r', 'b']) {
        Some((Scale::Thousand, 2))
    } else if word_at(s, i, seq!['r', 'i', 'b', 'u']) {
        Some((Scale::Thousand, 4))
    } else if word_at(s, i, seq!['j', 't']) {
        Some((Scale::Million, 2))
    } else if word_at(s, i, seq!['j', 'u', 't', 'a']) {
        Some((Scale::Million, 4))
    } else if word_at(s, i, seq!['m']) {
        Some((Scale::Million, 1))
    } else {
        None
    }
}

/// The first position at or after `i` that holds a (Unicode) decimal digit.
pub open spec fn first_digit(s: Seq<char>, i: int) -> Option<int>
    decreases s.len() - i,
{
    if i < 0 || i >= s.len() {
        None
    } else if is_decimal(s[i]) {
        Some(i)
    } else {
        first_digit(s, i + 1)
    }
}

/// The end of the run of (Unicode) decimal digits that starts at `i`.
pub open spec fn digits_end(s: Seq<char>, i: int) -> int
    decreases s.len() - i,
{
    if 0 <= i < s.len() && is_decimal(s[i]) {
        digits_end(s, i + 1)
    } else {
        i
    }
}

/// The end of the run of white space that starts at `i`.
pub open spec fn ws_end(s: Seq<char>, i: int) -> int
    decreases s.len() - i,
{
    if 0 <= i < s.len() && is_ws(s[i]) {
        ws_end(s, i + 1)
    } else {
        i
    }
}

/// At `q` stands a separator ('.' or ',') followed by a decimal digit.
pub open spec fn has_fraction(s: Seq<char>, q: int) -> bool {
    &&& 0 <= q
    &&& q + 1 < s.len()
    &&& (s[q] == '.' || s[q] == ',')
    &&& is_decimal(s[q + 1])
}

/// `a / b` rounded to the nearest integer, halves upwards.
pub open spec fn round_div(a: nat, b: nat) -> nat {
    ((2 * a + b) / (2 * b)) as nat
}

/// The amount that digits before a separator, the digits after it (if any)
/// and a scale (if any) denote. Without a scale, the separator groups
/// thousands ("15.000" is fifteen thousand); with one, it is a decimal point
/// ("1.5jt" is one and a half million), and the result is rounded to whole
/// Rupiah, halves upwards. The value is computed exactly.
pub open spec fn amount_value(int_digits: Seq<char>, frac: Option<Seq<char>>, sc: Option<Scale>) -> nat {
    match frac {
        None => digits_value(int_digits) * scale_factor(sc),
        Some(f) => match sc {
            None => digits_value(int_digits + f),
            Some(_) => round_div(
                (digits_value(int_digits) * pow10(f.len()) + digits_value(f)) * scale_factor(sc),
                pow10(f.len()),
            ),
        },
    }
}

/// Where the number that starts at `p` ends: after its fraction if it has one.
pub open spec fn number_end(s: Seq<char>, p: int) -> int {
    let q = digits_end(s, p);
    if has_fraction(s, q) {
        digits_end(s, q + 1)
    } else {
        q
    }
}

/// The suffix that follows the number at `p`, after any white space.
pub open spec fn token_suffix(s: Seq<char>, p: int) -> Option<(Scale, nat)> {
    suffix_at(s, ws_end(s, number_end(s, p)))
}

/// Where the amount token that starts at `p` ends: after the number, the
/// white space behind it, and the suffix if there is one.
pub open spec fn token_end(s: Seq<char>, p: int) -> int {
    let w = ws_end(s, number_end(s, p));
    match suffix_at(s, w) {
        Some((_, n)) => w + n,
        None => w,
    }
}

/// The value, capped at the largest `i64`, of the amount token at `p`.
pub open spec fn token_amount(s: Seq<char>, p: int) -> nat {
    let q = digits_end(s, p);
    let frac = if has_fraction(s, q) {
        Some(s.subrange(q + 1, number_end(s, p)))
    } else {
        None
    };
    let sc = match token_suffix(s, p) {
        Some((sc, _)) => Some(sc),
        None => None,
    };
    cap(amount_value(s.subrange(p, q), frac, sc))
}

/// The digits of the number at `p` are all ASCII digits, so that it reads
/// as a number at all (other decimal digits end the reading).
pub open spec fn token_is_ascii(s: Seq<char>, p: int) -> bool {
    let q = digits_end(s, p);
    &&& all_digits(s.subrange(p, q))
    &&& has_fraction(s, q) ==> all_digits(s.subrange(q + 1, number_end(s, p)))
}

/// The note: the trimmed text before the token and the trimmed text after
/// it, joined by one space.
pub open spec fn token_note(s: Seq<char>, p: int) -> Seq<char> {
    let before = trim(s.subrange(0, p));
    let after = trim(s.subrange(token_end(s, p), s.len() as int));
    trim(
        if before.len() > 0 {
            before + seq![' '] + after
        } else {
            after
        },
    )
}

/// The text of a message with its income mark removed: the trimmed message,
/// and where it starts with '+', the trimmed rest.
pub open spec fn message_body(input: Seq<char>) -> (bool, Seq<char>) {
    let t = trim(input);
    if t.len() > 0 && t[0] == '+' {
        (true, trim(t.drop_first()))
    } else {
        (false, t)
    }
}

/// What `parse` reads from a message: the first amount token (a run of
/// decimal digits, optionally a separator and more digits, optional white
/// space and an optional suffix), its amount, the note around it and the
/// income mark. Nothing where there is no decimal digit, where the number
/// holds a decimal digit other than an ASCII one, or where the amount is
/// zero.
pub open spec fn parse_spec(input: Seq<char>) -> Option<(int, Seq<char>, bool)> {
    let (income, text) = message_body(input);
    match first_digit(text, 0) {
        None => None,
        Some(p) => if !token_is_ascii(text, p) || token_amount(text, p) == 0 {
            None
        } else {
            Some((token_amount(text, p) as int, token_note(text, p), income))
        },
    }
}


/// Capping commutes with scaling and adding: `cap(cap(x) * m + r) == cap(x * m + r)`.
proof fn lemma_cap_scale(x: nat, m: nat, r: nat)
    requires
        m >= 1,
    ensures
        cap(cap(x) * m + r) == cap(x * m + r),
{
    if x > i64_max() {
        assert(x * m >= x) by (nonlinear_arith)
            requires
                m >= 1,
        ;
        assert(i64_max() * m >= i64_max()) by (nonlinear_arith)
            requires
                m >= 1,
        ;
    }
}

/// Rounding `(x * p + v) * m / p` splits off the whole part `x * m`.
proof fn lemma_round_div_shift(x: nat, p: nat, v: nat, m: nat)
    requires
        p >= 1,
    ensures
        round_div((x * p + v) * m, p) == x * m + round_div(v * m, p),
{
    let a = 2 * (v * m) + p;
    let d = 2 * p;
    let q0 = a / d;
    let r0 = a % d;
    vstd::arithmetic::div_mod::lemma_fundamental_div_mod(a as int, d as int);
    let total = 2 * ((x * p + v) * m) + p;
    assert(total == (x * m + q0) * d + r0) by (nonlinear_arith)
        requires
            a == 2 * (v * m) + p,
            d == 2 * p,
            a == d * q0 + r0,
            total == 2 * ((x * p + v) * m) + p,
    ;
    vstd::arithmetic::div_mod::lemma_fundamental_div_mod_converse(
        total as int,
        d as int,
        (x * m + q0) as int,
        r0 as int,
    );
}

/// The value of a one-digit string is that digit.
proof fn lemma_digits_value_single(c: char)
    ensures
        digits_value(seq![c]) == digit_value(c),
{
    let s = seq![c];
    assert(s.drop_last() =~= Seq::<char>::empty());
    assert(s.last() == c);
    assert(digits_value(s.drop_last()) == 0);
    assert(digits_value(s) == digits_value(s.drop_last()) * 10 + digit_value(s.last()));
}

/// The digits of a fraction, scaled by `10^k` and rounded: the first `k`
/// digits (padded with zeros), plus one where the next digit is 5 or more.
proof fn lemma_round_fraction(f: Seq<char>, k: nat)
    requires
        all_digits(f),
    ensures
        f.len() >= k ==> round_div(digits_value(f) * pow10(k), pow10(f.len())) == digits_value(
            f.take(k as int),
        ) + (if f.len() > k && digit_value(f[k as int]) >= 5 {
            1nat
        } else {
            0nat
        }),
        f.len() < k ==> round_div(digits_value(f) * pow10(k), pow10(f.len())) == digits_value(f)
            * pow10((k - f.len()) as nat),
{
    let len = f.len();
    if len >= k {
        let r = (len - k) as nat;
        let head = f.take(k as int);
        let tail = f.skip(k as int);
        assert(head + tail =~= f);
        lemma_digits_value_concat(head, tail);
        assert(all_digits(tail)) by {
            assert forall|i: int| 0 <= i < tail.len() implies is_digit(#[trigger] tail[i]) by {
                assert(tail[i] == f[i + k]);
            }
        }
        lemma_digits_value_bound(tail);
        lemma_pow10_adds(k, r);
        assert(k + r == len);
        let a = digits_value(head);
        let b = digits_value(tail);
        let pk = pow10(k);
        let pr = pow10(r);
        lemma_pow10_positive(k);
        lemma_pow10_positive(r);
        let bit: nat = if len > k && digit_value(f[k as int]) >= 5 {
            1
        } else {
            0
        };
        if r > 0 {
            let rest = tail.drop_first();
            assert(seq![tail[0]] + rest =~= tail);
            lemma_digits_value_concat(seq![tail[0]], rest);
            lemma_digits_value_single(tail[0]);
            assert(all_digits(rest)) by {
                assert forall|i: int| 0 <= i < rest.len() implies is_digit(#[trigger] rest[i]) by {
                    assert(rest[i] == tail[i + 1]);
                }
            }
            lemma_digits_value_bound(rest);
            let r1 = (r - 1) as nat;
            assert(rest.len() == r1);
            let p1 = pow10(r1);
            assert(pr == 10 * p1);
            let dk = digit_value(tail[0]);
            assert(tail[0] == f[k as int]);
            let c = digits_value(rest);
            assert(b == dk * p1 + c);
            if dk >= 5 {
                assert(2 * b >= pr) by (nonlinear_arith)
                    requires
                        b == dk * p1 + c,
                        dk >= 5,
                        pr == 10 * p1,
                ;
            } else {
                assert(2 * b < pr) by (nonlinear_arith)
                    requires
                        b == dk * p1 + c,
                        dk < 5,
                        c < p1,
                        pr == 10 * p1,
                ;
            }
        } else {
            assert(tail.len() == 0);
            assert(b == 0);
            assert(pr == 1);
        }
        assert(bit == 1 <==> 2 * b >= pr);
        let x = 2 * (digits_value(f) * pk) + pow10(len);
        let dd = 2 * pow10(len);
        let rem: int = if bit == 1 {
            pk * (2 * b - pr)
        } else {
            (pk * (2 * b + pr)) as int
        };
        assert(digits_value(f) == a * pr + b);
        assert(pow10(len) == pk * pr);
        assert(x == (a + bit) * dd + rem && 0 <= rem < dd) by (nonlinear_arith)
            requires
                x == 2 * (digits_value(f) * pk) + pow10(len),
                dd == 2 * pow10(len),
                digits_value(f) == a * pr + b,
                pow10(len) == pk * pr,
                b < pr,
                pk >= 1,
                bit == 1 ==> 2 * b >= pr && rem == pk * (2 * b - pr),
                bit == 0 ==> 2 * b < pr && rem == pk * (2 * b + pr),
                bit == 0 || bit == 1,
        ;
        vstd::arithmetic::div_mod::lemma_fundamental_div_mod_converse(
            x as int,
            dd as int,
            (a + bit) as int,
            rem,
        );
    } else {
        let r = (k - len) as nat;
        lemma_pow10_adds(len, r);
        assert(len + r == k);
        let v = digits_value(f);
        let pl = pow10(len);
        let pr = pow10(r);
        lemma_pow10_positive(len);
        let x = 2 * (v * pow10(k)) + pl;
        assert(x == (v * pr) * (2 * pl) + pl) by (nonlinear_arith)
            requires
                x == 2 * (v * pow10(k)) + pl,
                pow10(k) == pl * pr,
        ;
        vstd::arithmetic::div_mod::lemma_fundamental_div_mod_converse(
            x as int,
            (2 * pl) as int,
            (v * pr) as int,
            pl as int,
        );
    }
}

/// The first digit at or after `i`, and none before it.
fn scan_first_digit(s: &Vec<char>) -> (r: Option<usize>)
    ensures
        match r {
            Some(p) => first_digit(s@, 0) == Some(p as int) && p < s.len(),
            None => first_digit(s@, 0) is None,
        },
{
    let mut i: usize = 0;
    while i < s.len()
        invariant
            i <= s.len(),
            first_digit(s@, i as int) == first_digit(s@, 0),
        decreases s.len() - i,
    {
        if char_is_decimal(s[i]) {
            return Some(i);
        }
        i = i + 1;
    }
    None
}

/// The end of the decimal-digit run at `i`.
fn scan_digits_end(s: &Vec<char>, i: usize) -> (r: usize)
    requires
        i <= s.len(),
    ensures
        i <= r <= s.len(),
        r == digits_end(s@, i as int),
{
    let mut j = i;
    while j < s.len() && char_is_decimal(s[j])
        invariant
            i <= j <= s.len(),
            digits_end(s@, j as int) == digits_end(s@, i as int),
        decreases s.len() - j,
    {
        j = j + 1;
    }
    j
}

/// The end of the white-space run at `i`.
fn scan_ws_end(s: &Vec<char>, i: usize) -> (r: usize)
    requires
        i <= s.len(),
    ensures
        i <= r <= s.len(),
        r == ws_end(s@, i as int),
{
    let mut j = i;
    while j < s.len() && char_is_ws(s[j])
        invariant
            i <= j <= s.len(),
            ws_end(s@, j as int) == ws_end(s@, i as int),
        decreases s.len() - j,
    {
        j = j + 1;
    }
    j
}

/// Whether `c` is the lower-case letter `x` in any case.
fn letter_matches(c: char, x: char) -> (r: bool)
    requires
        'a' <= x <= 'z',
    ensures
        r == letter_is(c, x),
{
    c == x || (c as u32) + 32 == (x as u32) || (x == 'k' && (c as u32) == 0x212A)
}

/// Whether `c` is a Latin letter.
fn char_is_letter(c: char) -> (r: bool)
    ensures
        r == is_letter(c),
{
    let u = c as u32;
    (0x41 <= u && u <= 0x5A) || (0x61 <= u && u <= 0x7A) || (0xC0 <= u && u <= 0x24F && u != 0xD7
        && u != 0xF7)
}

/// Whether the word `w` stands at `i` in `s`, in any case, with no letter
/// after it.
fn word_here(s: &Vec<char>, i: usize, w: &Vec<char>) -> (r: bool)
    requires
        forall|j: int| 0 <= j < w.len() ==> 'a' <= #[trigger] w@[j] <= 'z',
    ensures
        r == word_at(s@, i as int, w@),
{
    if i > s.len() || w.len() > s.len() - i {
        return false;
    }
    let mut j: usize = 0;
    while j < w.len()
        invariant
            i + w.len() <= s.len(),
            j <= w.len(),
            forall|t: int| 0 <= t < w.len() ==> 'a' <= #[trigger] w@[t] <= 'z',
            forall|t: int| 0 <= t < j ==> letter_is(#[trigger] s@[i + t], w@[t]),
        decreases w.len() - j,
    {
        if !letter_matches(s[i + j], w[j]) {
            assert(!letter_is(s@[i + j], w@[j as int]));
            return false;
        }
        j = j + 1;
    }
    let next = i + w.len();
    !(next < s.len() && char_is_letter(s[next]))
}

/// The suffix at `i`: its scale and length.
fn match_suffix(s: &Vec<char>, i: usize) -> (r: Option<(Scale, usize)>)
    ensures
        match r {
            Some((sc, n)) => suffix_at(s@, i as int) == Some((sc, n as nat)),
            None => suffix_at(s@, i as int) is None,
        },
{
    let k = vec!['k'];
    let rb = vec!['r', 'b'];
    let ribu = vec!['r', 'i', 'b', 'u'];
    let jt = vec!['j', 't'];
    let juta = vec!['j', 'u', 't', 'a'];
    let m = vec!['m'];
    assert(k@ =~= seq!['k']);
    assert(rb@ =~= seq!['r', 'b']);
    assert(ribu@ =~= seq!['r', 'i', 'b', 'u']);
    assert(jt@ =~= seq!['j', 't']);
    assert(juta@ =~= seq!['j', 'u', 't', 'a']);
    assert(m@ =~= seq!['m']);
    if word_here(s, i, &k) {
        Some((Scale::Thousand, 1))
    } else if word_here(s, i, &rb) {
        Some((Scale::Thousand, 2))
    } else if word_here(s, i, &ribu) {
        Some((Scale::Thousand, 4))
    } else if word_here(s, i, &jt) {
        Some((Scale::Million, 2))
    } else if word_here(s, i, &juta) {
        Some((Scale::Million, 4))
    } else if word_here(s, i, &m) {
        Some((Scale::Million, 1))
    } else {
        None
    }
}


/// Ten to the third and to the sixth.
proof fn lemma_pow10_scales()
    ensures
        pow10(3) == 1000,
        pow10(6) == 1_000_000,
{
    reveal_with_fuel(pow10, 7);
}

/// Powers of ten up to the sixth stay within a million.
proof fn lemma_pow10_upto_six(t: nat)
    requires
        t <= 6,
    ensures
        1 <= pow10(t) <= 1_000_000,
{
    lemma_pow10_scales();
    lemma_pow10_adds(t, (6 - t) as nat);
    lemma_pow10_positive((6 - t) as nat);
    lemma_pow10_positive(t);
    assert(pow10(t) <= pow10(6)) by (nonlinear_arith)
        requires
            pow10(6) == pow10(t) * pow10((6 - t) as nat),
            pow10((6 - t) as nat) >= 1,
    ;
}

/// The fraction digits `text[lo..hi]` scaled by `10^k` and rounded.
fn scaled_fraction(text: &Vec<char>, lo: usize, hi: usize, k: usize) -> (r: u128)
    requires
        lo <= hi <= text.len(),
        all_digits(text@.subrange(lo as int, hi as int)),
        k == 3 || k == 6,
    ensures
        r == round_div(
            digits_value(text@.subrange(lo as int, hi as int)) * pow10(k as nat),
            pow10((hi - lo) as nat),
        ),
        r <= 1_000_000,
{
    let ghost d2 = text@.subrange(lo as int, hi as int);
    let f = hi - lo;
    let j = if f < k {
        f
    } else {
        k
    };
    proof {
        assert(d2.take(j as int) =~= text@.subrange(lo as int, lo + j));
        assert(all_digits(d2.take(j as int))) by {
            assert forall|t: int| 0 <= t < j implies is_digit(#[trigger] d2.take(j as int)[t]) by {
                assert(d2.take(j as int)[t] == d2[t]);
            }
        }
        lemma_digits_value_bound(d2.take(j as int));
        lemma_pow10_upto_six(j as nat);
        assert(cap(0) == 0);
        assert(0 * pow10(j as nat) + digits_value(d2.take(j as int)) == digits_value(
            d2.take(j as int),
        ));
    }
    let a2 = accumulate_digits(text, lo, lo + j, 0, Ghost(0), 0x7fff_ffff_ffff_ffff);
    assert(a2 == digits_value(d2.take(j as int)));
    assert(pow10(0) == 1);
    assert(a2 * 1 == a2);
    assert(pow10(j as nat) * 1 == pow10(j as nat));
    let mut rr = a2;
    let mut t = j;
    while t < k
        invariant
            j <= t <= k <= 6,
            a2 < pow10(j as nat),
            rr == a2 * pow10((t - j) as nat),
            pow10(j as nat) * pow10((t - j) as nat) == pow10(t as nat),
        decreases k - t,
    {
        proof {
            assert(pow10((t + 1 - j) as nat) == 10 * pow10((t - j) as nat));
            lemma_pow10_adds(j as nat, (t + 1 - j) as nat);
            lemma_pow10_upto_six((t + 1) as nat);
            assert(rr * 10 == a2 * pow10((t + 1 - j) as nat)) by (nonlinear_arith)
                requires
                    rr == a2 * pow10((t - j) as nat),
                    pow10((t + 1 - j) as nat) == 10 * pow10((t - j) as nat),
            ;
            assert(a2 * pow10((t + 1 - j) as nat) <= pow10((t + 1) as nat)) by (nonlinear_arith)
                requires
                    a2 < pow10(j as nat),
                    pow10(j as nat) * pow10((t + 1 - j) as nat) == pow10((t + 1) as nat),
            ;
        }
        rr = rr * 10;
        t = t + 1;
    }
    let bit: u128 = if f > k && text[lo + k] >= '5' {
        1
    } else {
        0
    };
    proof {
        lemma_round_fraction(d2, k as nat);
        if f > k {
            assert(d2[k as int] == text@[lo + k]);
            assert(is_digit(d2[k as int]));
        }
        if f >= k {
            assert(j == k);
            assert(pow10(0) == 1);
        }
        lemma_pow10_upto_six(k as nat);
        lemma_pow10_positive((t - j) as nat);
        assert(a2 * pow10((t - j) as nat) < pow10(k as nat)) by (nonlinear_arith)
            requires
                a2 < pow10(j as nat),
                pow10(j as nat) * pow10((t - j) as nat) == pow10(t as nat),
                t == k,
                pow10((t - j) as nat) >= 1,
        ;
    }
    rr + bit
}

/// The capped amount of a number with integer digits `text[p..q]`, a fraction
/// `text[q+1..ne]` where `frac` holds, and a scale.
fn token_value(text: &Vec<char>, p: usize, q: usize, ne: usize, frac: bool, sc: Option<Scale>) -> (r: u128)
    requires
        p <= q <= ne <= text.len(),
        all_digits(text@.subrange(p as int, q as int)),
        frac ==> q + 1 <= ne && all_digits(text@.subrange(q + 1, ne as int)),
        !frac ==> ne == q,
    ensures
        r == cap(
            amount_value(
                text@.subrange(p as int, q as int),
                if frac {
                    Some(text@.subrange(q + 1, ne as int))
                } else {
                    None
                },
                sc,
            ),
        ),
{
    let ghost d1 = text@.subrange(p as int, q as int);
    let ghost v1 = digits_value(d1);
    proof {
        lemma_pow10_scales();
        assert(cap(0) == 0);
        assert(0 * pow10((q - p) as nat) + v1 == v1);
    }
    let a1 = accumulate_digits(text, p, q, 0, Ghost(0), 0x7fff_ffff_ffff_ffff);
    assert(a1 == cap(v1));
    let m: u128 = match sc {
        None => 1,
        Some(Scale::Thousand) => 1000,
        Some(Scale::Million) => 1_000_000,
    };
    assert(m == scale_factor(sc));
    if !frac {
        proof {
            lemma_cap_scale(v1, m as nat, 0);
        }
        let x = a1 * m;
        if x > 0x7fff_ffff_ffff_ffff {
            0x7fff_ffff_ffff_ffff
        } else {
            x
        }
    } else {
        let ghost d2 = text@.subrange(q + 1, ne as int);
        let ghost v2 = digits_value(d2);
        match sc {
            None => {
                let acc = accumulate_digits(text, q + 1, ne, a1, Ghost(v1), 0x7fff_ffff_ffff_ffff);
                proof {
                    lemma_digits_value_concat(d1, d2);
                }
                acc
            },
            Some(scale) => {
                let k: usize = match scale {
                    Scale::Thousand => 3,
                    Scale::Million => 6,
                };
                assert(m == pow10(k as nat));
                let rr = scaled_fraction(text, q + 1, ne, k);
                proof {
                    lemma_pow10_positive(d2.len());
                    lemma_round_div_shift(v1, pow10(d2.len()), v2, m as nat);
                    lemma_cap_scale(v1, m as nat, rr as nat);
                    assert(a1 * m <= 0x7fff_ffff_ffff_ffff * 1_000_000) by (nonlinear_arith)
                        requires
                            a1 <= 0x7fff_ffff_ffff_ffff,
                            m <= 1_000_000,
                    ;
                }
                let x = a1 * m + rr;
                if x > 0x7fff_ffff_ffff_ffff {
                    0x7fff_ffff_ffff_ffff
                } else {
                    x
                }
            },
        }
    }
}


/// The message with its income mark taken off (see `message_body`).
fn message_text(input: &str) -> (r: (bool, Vec<char>))
    ensures
        message_body(input@) == (r.0, r.1@),
{
    let chars = chars_of(input);
    let n = chars.len();
    let (a, b) = trim_bounds(&chars, 0, n);
    assert(chars@.subrange(0, n as int) =~= input@);
    if a < b && chars[a] == '+' {
        let (c, d) = trim_bounds(&chars, a + 1, b);
        assert(chars@.subrange(a as int, b as int).drop_first() =~= chars@.subrange(
            a + 1,
            b as int,
        ));
        (true, copy_range(&chars, c, d))
    } else {
        (false, copy_range(&chars, a, b))
    }
}

/// The note around the token `text[p..end]` (see `token_note`).
fn note_around(text: &Vec<char>, p: usize, end: usize) -> (r: String)
    requires
        p <= end <= text.len(),
    ensures
        r@ == ({
            let before = trim(text@.subrange(0, p as int));
            let after = trim(text@.subrange(end as int, text.len() as int));
            trim(
                if before.len() > 0 {
                    before + seq![' '] + after
                } else {
                    after
                },
            )
        }),
{
    let (b0, b1) = trim_bounds(text, 0, p);
    let (a0, a1) = trim_bounds(text, end, text.len());
    let mut joined: Vec<char> = Vec::new();
    push_range(&mut joined, text, b0, b1);
    if b1 > b0 {
        joined.push(' ');
    }
    push_range(&mut joined, text, a0, a1);
    let ghost before = trim(text@.subrange(0, p as int));
    let ghost after = trim(text@.subrange(end as int, text.len() as int));
    assert(joined@ =~= if before.len() > 0 {
        before + seq![' '] + after
    } else {
        after
    });
    let (n0, n1) = trim_bounds(&joined, 0, joined.len());
    assert(joined@.subrange(0, joined.len() as int) =~= joined@);
    let note_chars = copy_range(&joined, n0, n1);
    string_from_chars(&note_chars)
}

/// The amount token that starts at the digit `p`: whether its number is
/// all ASCII digits, its capped amount where it is, and where it ends.
fn read_token(text: &Vec<char>, p: usize) -> (r: (bool, u128, usize))
    requires
        p < text.len(),
    ensures
        r.0 == token_is_ascii(text@, p as int),
        r.0 ==> r.1 == token_amount(text@, p as int),
        r.2 == token_end(text@, p as int),
        p <= r.2 <= text.len(),
{
    let q = scan_digits_end(text, p);
    let frac = q < text.len() && q + 1 < text.len() && (text[q] == '.' || text[q] == ',')
        && char_is_decimal(text[q + 1]);
    assert(frac == has_fraction(text@, q as int));
    let ne = if frac {
        scan_digits_end(text, q + 1)
    } else {
        q
    };
    assert(ne == number_end(text@, p as int));
    let w = scan_ws_end(text, ne);
    let suffix = match_suffix(text, w);
    let (sc, end) = match suffix {
        Some((sc, len)) => (Some(sc), w + len),
        None => (None, w),
    };
    assert(end == token_end(text@, p as int));
    let ascii = check_digits(text, p, q) && (!frac || check_digits(text, q + 1, ne));
    if !ascii {
        return (false, 0, end);
    }
    let amount = token_value(text, p, q, ne, frac, sc);
    (true, amount, end)
}

/// Reads a message such as "15k soto", "makan siang 25k warteg", "1.5jt kos"
/// or "+5jt gaji": the first amount in it, the note around it, and whether
/// it is income. `None` where the message holds no digit or the amount is
/// zero.
pub fn parse(input: &str) -> (r: Option<ParsedInput>)
    ensures
        match r {
            Some(p) => parse_spec(input@) == Some(p@),
            None => parse_spec(input@) is None,
        },
        r matches Some(p) ==> p.amount > 0,
{
    let (is_income, text) = message_text(input);
    let p = match scan_first_digit(&text) {
        Some(p) => p,
        None => {
            return None;
        },
    };
    let (ascii, amount, end) = read_token(&text, p);
    if !ascii || amount == 0 {
        return None;
    }
    let note = note_around(&text, p, end);
    Some(ParsedInput { amount: amount as i64, note, is_income })
}


/// The piece that the `i`-th char of `s` becomes: the char, with a '.' before
/// it where a group of three digits starts (counting from the right).
pub open spec fn group_piece(s: Seq<char>, i: int) -> Seq<char> {
    if i > 0 && (s.len() - i) % 3 == 0 {
        seq!['.', s[i]]
    } else {
        seq![s[i]]
    }
}

/// The first `k` chars of `s` with their group dots.
pub open spec fn grouped_prefix(s: Seq<char>, k: nat) -> Seq<char>
    decreases k,
{
    if k == 0 {
        Seq::empty()
    } else {
        grouped_prefix(s, (k - 1) as nat) + group_piece(s, k - 1)
    }
}

/// `s` with a '.' before every group of three chars counted from the right,
/// except at the very start.
pub open spec fn group_thousands(s: Seq<char>) -> Seq<char> {
    grouped_prefix(s, s.len())
}

/// The Rupiah text of an amount: "Rp" and its decimal digits grouped by
/// dots ("Rp15.000"). The grouping counts the minus sign of a negative
/// amount as a char, as the digits are grouped in the text of the number.
pub open spec fn rupiah(n: int) -> Seq<char> {
    seq!['R', 'p'] + group_thousands(int_decimal(n))
}

/// Formats an amount: 15000 becomes "Rp15.000".
pub fn format_rupiah(amount: i64) -> (r: String)
    ensures
        r@ == rupiah(amount as int),
{
    let mut digits: Vec<char> = Vec::new();
    push_int_decimal(amount, &mut digits);
    assert(digits@ =~= int_decimal(amount as int));
    let mut out: Vec<char> = Vec::new();
    out.push('R');
    out.push('p');
    let len = digits.len();
    let mut i: usize = 0;
    while i < len
        invariant
            i <= len == digits.len(),
            out@ == seq!['R', 'p'] + grouped_prefix(digits@, i as nat),
        decreases len - i,
    {
        if i > 0 && (len - i) % 3 == 0 {
            out.push('.');
        }
        out.push(digits[i]);
        assert(out@ =~= seq!['R', 'p'] + grouped_prefix(digits@, (i + 1) as nat));
        i = i + 1;
    }
    string_from_chars(&out)
}


/// The number "a" or "a.f" written with digits `a` and `frac`.
pub open spec fn number_text(a: Seq<char>, frac: Seq<char>) -> Seq<char> {
    if frac.len() == 0 {
        a
    } else {
        a + seq!['.'] + frac
    }
}

/// Text that may follow a number without joining it: nothing, or a char
/// that is neither a decimal digit nor a separator.
pub open spec fn ends_number(u: Seq<char>) -> bool {
    u.len() == 0 || (!is_decimal(u[0]) && u[0] != '.' && u[0] != ',')
}

/// ASCII digits are decimal digits, and neither white space nor a
/// separator nor a '+'.
proof fn lemma_ascii_digit(c: char)
    requires
        is_digit(c),
    ensures
        is_decimal(c),
        !is_ws(c),
        c != '.' && c != ',' && c != '+',
{
}

/// The shape of a number written first in a text: its digits, its fraction
/// and where it ends.
proof fn lemma_number_shape(a: Seq<char>, frac: Seq<char>, u: Seq<char>)
    requires
        a.len() > 0,
        all_digits(a),
        all_digits(frac),
        ends_number(u),
    ensures
        ({
            let x = number_text(a, frac);
            let t = x + u;
            &&& digits_end(t, 0) == a.len()
            &&& has_fraction(t, a.len() as int) == (frac.len() > 0)
            &&& number_end(t, 0) == x.len()
            &&& t.subrange(0, a.len() as int) == a
            &&& frac.len() > 0 ==> t.subrange((a.len() + 1) as int, x.len() as int) == frac
        }),
{
    let x = number_text(a, frac);
    let t = x + u;
    assert forall|k: int| 0 <= k < a.len() implies is_decimal(#[trigger] t[k]) by {
        assert(t[k] == a[k]);
        lemma_ascii_digit(a[k]);
    }
    if u.len() > 0 {
        assert(t[x.len() as int] == u[0]);
    }
    if frac.len() == 0 {
        lemma_digits_end_at(t, 0, a.len() as int);
        assert(!has_fraction(t, a.len() as int));
    } else {
        assert(t[a.len() as int] == '.');
        assert(!is_decimal('.'));
        lemma_digits_end_at(t, 0, a.len() as int);
        assert(t[(a.len() + 1) as int] == frac[0]);
        lemma_ascii_digit(frac[0]);
        assert forall|k: int| a.len() + 1 <= k < x.len() implies is_decimal(#[trigger] t[k]) by {
            assert(t[k] == frac[k - a.len() - 1]);
            lemma_ascii_digit(frac[k - a.len() - 1]);
        }
        lemma_digits_end_at(t, (a.len() + 1) as int, x.len() as int);
        assert(t.subrange((a.len() + 1) as int, x.len() as int) =~= frac);
    }
    assert(t.subrange(0, a.len() as int) =~= a);
}

/// The amount token of `x + " " + r` reads as that of `x + r`.
proof fn lemma_token_space_before_suffix(a: Seq<char>, frac: Seq<char>, r: Seq<char>)
    requires
        a.len() > 0,
        all_digits(a),
        all_digits(frac),
        ends_number(r),
    ensures
        ({
            let x = number_text(a, frac);
            &&& token_is_ascii(x + seq![' '] + r, 0) == token_is_ascii(x + r, 0)
            &&& token_amount(x + seq![' '] + r, 0) == token_amount(x + r, 0)
        }),
{
    let x = number_text(a, frac);
    let u1 = seq![' '] + r;
    let t1 = x + u1;
    let t2 = x + r;
    assert(x + seq![' '] + r =~= t1);
    lemma_number_shape(a, frac, u1);
    lemma_number_shape(a, frac, r);
    let n = x.len() as int;
    let xs = x + seq![' '];
    assert(t1 =~= xs + r);
    assert(t1[n] == ' ');
    lemma_ws_end_shift(xs, r, 0);
    lemma_ws_end_shift(x, r, 0);
    assert(ws_end(t1, n) == ws_end(t1, n + 1));
    let w = ws_end(r, 0);
    assert(ws_end(t1, n) == n + 1 + w);
    assert(ws_end(t2, n) == n + w);
    lemma_word_at_shift(xs, r, w, seq!['k']);
    lemma_word_at_shift(xs, r, w, seq!['r', 'b']);
    lemma_word_at_shift(xs, r, w, seq!['r', 'i', 'b', 'u']);
    lemma_word_at_shift(xs, r, w, seq!['j', 't']);
    lemma_word_at_shift(xs, r, w, seq!['j', 'u', 't', 'a']);
    lemma_word_at_shift(xs, r, w, seq!['m']);
    lemma_word_at_shift(x, r, w, seq!['k']);
    lemma_word_at_shift(x, r, w, seq!['r', 'b']);
    lemma_word_at_shift(x, r, w, seq!['r', 'i', 'b', 'u']);
    lemma_word_at_shift(x, r, w, seq!['j', 't']);
    lemma_word_at_shift(x, r, w, seq!['j', 'u', 't', 'a']);
    lemma_word_at_shift(x, r, w, seq!['m']);
    assert(suffix_at(t1, n + 1 + w) == suffix_at(t2, n + w));
    assert(token_suffix(t1, 0) == token_suffix(t2, 0));
}

/// Trimming the end of `u + v` trims `v` alone, unless `v` is all white
/// space.
proof fn lemma_trim_end_concat(u: Seq<char>, v: Seq<char>)
    ensures
        trim_end(v).len() > 0 ==> trim_end(u + v) == u + trim_end(v),
        trim_end(v).len() == 0 ==> trim_end(u + v) == trim_end(u),
    decreases v.len(),
{
    let s = u + v;
    if v.len() > 0 && is_ws(v.last()) {
        assert(s.last() == v.last());
        assert(s.drop_last() =~= u + v.drop_last());
        lemma_trim_end_concat(u, v.drop_last());
    } else if v.len() > 0 {
        assert(s.last() == v.last());
    } else {
        assert(s =~= u);
    }
}

/// White space between a number and its suffix changes nothing: "1.5 jt
/// kos" reads as "1.5jt kos", and "15 k soto" as "15k soto". For digits `a`
/// and a fraction `frac` (none where empty), a message that starts with the
/// number and goes on with `r` reads, with a space put between, as the
/// same amount, or as nothing both times.
pub proof fn law_space_before_suffix(a: Seq<char>, frac: Seq<char>, r: Seq<char>)
    requires
        a.len() > 0,
        all_digits(a),
        all_digits(frac),
        ends_number(r),
    ensures
        match (
            parse_spec(number_text(a, frac) + seq![' '] + r),
            parse_spec(number_text(a, frac) + r),
        ) {
            (Some((x1, _, i1)), Some((x2, _, i2))) => x1 == x2 && !i1 && !i2,
            (None, None) => true,
            _ => false,
        },
{
    let x = number_text(a, frac);
    let t1 = x + seq![' '] + r;
    let t2 = x + r;
    assert(x[0] == a[0]);
    lemma_ascii_digit(a[0]);
    assert(t1[0] == x[0]);
    assert(t2[0] == x[0]);
    assert(trim_start(t1) == t1);
    assert(trim_start(t2) == t2);
    let xs = x + seq![' '];
    assert(t1 =~= xs + r);
    lemma_trim_end_concat(xs, r);
    lemma_trim_end_concat(x, r);
    lemma_trim_end_concat(x, seq![' ']);
    assert(trim_end(seq![' ']).len() == 0) by {
        let sp = seq![' '];
        assert(is_ws(sp.last()));
        assert(sp.drop_last() =~= Seq::<char>::empty());
        assert(trim_end(Seq::<char>::empty()) == Seq::<char>::empty());
        assert(trim_end(sp) == trim_end(sp.drop_last()));
    }
    if frac.len() > 0 {
        assert(x.last() == frac.last());
        lemma_ascii_digit(frac[frac.len() - 1]);
    } else {
        lemma_ascii_digit(a[a.len() - 1]);
    }
    assert(trim_end(x) == x);
    let rt = trim_end(r);
    let b1 = trim_end(t1);
    let b2 = trim_end(t2);
    assert(message_body(t1) == (false, b1));
    assert(message_body(t2) == (false, b2));
    if rt.len() > 0 {
        crate::text::lemma_trim_end_prefix(r);
        assert(rt[0] == r[0]);
        assert(b1 == x + seq![' '] + rt);
        assert(b2 == x + rt);
        lemma_token_space_before_suffix(a, frac, rt);
        assert(b1[0] == a[0]);
        assert(b2[0] == a[0]);
        assert(first_digit(b1, 0) == Some(0int));
        assert(first_digit(b2, 0) == Some(0int));
    } else {
        assert(b1 == x);
        assert(b2 == x);
    }
}

/// A leading '+' marks income and changes nothing else: the amount and the
/// note of "+<message>" are those of "<message>", and only "+<message>"
/// is income (for a message that does not itself start with '+').
pub proof fn law_plus_marks_income(s: Seq<char>)
    requires
        !(trim(s).len() > 0 && trim(s)[0] == '+'),
    ensures
        parse_spec(seq!['+'] + s) == match parse_spec(s) {
            Some((a, n, _)) => Some((a, n, true)),
            None => None,
        },
        parse_spec(s) matches Some((_, _, inc)) ==> !inc,
{
    let t = seq!['+'] + s;
    assert(t[0] == '+');
    assert(trim_start(t) == t);
    lemma_trim_end_cons('+', s);
    let tt = trim(t);
    assert(tt == seq!['+'] + trim_end(s));
    assert(tt.drop_first() =~= trim_end(s));
    lemma_trim_commute(s);
    lemma_trim_end_idempotent(trim_start(s));
    assert(trim(trim_end(s)) == trim(s));
    assert(message_body(t) == (true, trim(s)));
    assert(message_body(s) == (false, trim(s)));
}


/// `s` with its '.' chars left out.
pub open spec fn without_dots(s: Seq<char>) -> Seq<char>
    decreases s.len(),
{
    if s.len() == 0 {
        s
    } else {
        without_dots(s.drop_last()) + (if s.last() == '.' {
            Seq::empty()
        } else {
            seq![s.last()]
        })
    }
}

/// Leaving out dots distributes over joining texts.
proof fn lemma_without_dots_concat(a: Seq<char>, b: Seq<char>)
    ensures
        without_dots(a + b) == without_dots(a) + without_dots(b),
    decreases b.len(),
{
    if b.len() == 0 {
        assert(a + b =~= a);
        assert(without_dots(b) =~= Seq::<char>::empty());
        assert(without_dots(a) + without_dots(b) =~= without_dots(a));
    } else {
        lemma_without_dots_concat(a, b.drop_last());
        assert((a + b).drop_last() =~= a + b.drop_last());
        assert((a + b).last() == b.last());
        assert(without_dots(a + b) =~= without_dots(a) + without_dots(b));
    }
}

/// Without its dots, the grouped prefix is the prefix itself.
proof fn lemma_grouped_prefix_digits(s: Seq<char>, k: nat)
    requires
        k <= s.len(),
        forall|i: int| 0 <= i < s.len() ==> s[i] != '.',
    ensures
        without_dots(grouped_prefix(s, k)) == s.take(k as int),
    decreases k,
{
    if k == 0 {
        assert(s.take(0) =~= Seq::<char>::empty());
    } else {
        let k1 = (k - 1) as nat;
        lemma_grouped_prefix_digits(s, k1);
        lemma_without_dots_concat(grouped_prefix(s, k1), group_piece(s, k1 as int));
        let piece = group_piece(s, k1 as int);
        let e = Seq::<char>::empty();
        assert(without_dots(e) == e);
        assert(seq!['.'].last() == '.');
        if k1 > 0 && (s.len() - k1) % 3 == 0 {
            assert(piece.drop_last() =~= seq!['.']);
            assert(piece.last() == s[k1 as int]);
            assert(seq!['.'].drop_last() =~= e);
            assert(without_dots(seq!['.']) =~= Seq::<char>::empty());
            assert(without_dots(piece) =~= seq![s[k1 as int]]);
        } else {
            assert(piece.drop_last() =~= e);
            assert(piece.last() == s[k1 as int]);
            assert(without_dots(piece) =~= seq![s[k1 as int]]);
        }
        assert(s.take(k as int) =~= s.take(k1 as int) + seq![s[k1 as int]]);
    }
}

/// Formatting loses and adds no digit: without its dots, the text after
/// "Rp" is the amount in decimal.
pub proof fn law_rupiah_keeps_digits(n: int)
    ensures
        rupiah(n).take(2) == seq!['R', 'p'],
        without_dots(rupiah(n).skip(2)) == int_decimal(n),
{
    let d = int_decimal(n);
    crate::text::lemma_int_decimal_chars(n);
    assert forall|i: int| 0 <= i < d.len() implies d[i] != '.' by {
        assert(is_digit(d[i]) || d[i] == '-');
    }
    lemma_grouped_prefix_digits(d, d.len());
    assert(d.take(d.len() as int) =~= d);
    assert(rupiah(n).take(2) =~= seq!['R', 'p']);
    assert(rupiah(n).skip(2) =~= group_thousands(d));
}


/// A number below `10^k` has at most `k` decimal digits.
proof fn lemma_nat_decimal_len(n: nat, k: nat)
    requires
        k >= 1,
        n < pow10(k),
    ensures
        nat_decimal(n).len() <= k,
    decreases k,
{
    if n >= 10 {
        assert(pow10(k) == 10 * pow10((k - 1) as nat));
        if k == 1 {
            assert(pow10(0) == 1);
        }
        lemma_nat_decimal_len(n / 10, (k - 1) as nat);
    }
}

/// The run of digits from `i` ends at `j` when `s[i..j]` are digits and
/// `s[j]` is not.
proof fn lemma_digits_end_at(s: Seq<char>, i: int, j: int)
    requires
        0 <= i <= j <= s.len(),
        forall|k: int| i <= k < j ==> is_decimal(#[trigger] s[k]),
        j == s.len() || !is_decimal(s[j]),
    ensures
        digits_end(s, i) == j,
    decreases j - i,
{
    if i < j {
        lemma_digits_end_at(s, i + 1, j);
    }
}

/// How the first `k` chars of a text of at most six chars are grouped: one
/// dot before the last three, where there are more than three.
proof fn lemma_grouped_short(d: Seq<char>, k: nat)
    requires
        d.len() <= 6,
        k <= d.len(),
    ensures
        grouped_prefix(d, k) == (if d.len() > 3 && k > d.len() - 3 {
            d.take(d.len() - 3) + seq!['.'] + d.subrange(d.len() - 3, k as int)
        } else {
            d.take(k as int)
        }),
    decreases k,
{
    let len = d.len();
    if k == 0 {
        assert(d.take(0) =~= Seq::<char>::empty());
    } else {
        let k1 = (k - 1) as nat;
        lemma_grouped_short(d, k1);
        let dot = k1 > 0 && (len - k1) % 3 == 0;
        assert(dot <==> (len > 3 && k1 == len - 3));
        if len > 3 && k1 == len - 3 {
            assert(d.take(k1 as int) + seq!['.', d[k1 as int]] =~= d.take(len - 3) + seq!['.']
                + d.subrange(len - 3, k as int));
        } else if len > 3 && k1 > len - 3 {
            assert(d.take(len - 3) + seq!['.'] + d.subrange(len - 3, k1 as int) + seq![
                d[k1 as int],
            ] =~= d.take(len - 3) + seq!['.'] + d.subrange(len - 3, k as int));
        } else {
            assert(d.take(k1 as int) + seq![d[k1 as int]] =~= d.take(k as int));
        }
    }
}

/// An amount below a million that the bot writes ("Rp15.000") reads back,
/// when sent as a message, as that amount, with "Rp" as its note.
pub proof fn law_rupiah_reads_back(n: int)
    requires
        0 < n < 1_000_000,
    ensures
        parse_spec(rupiah(n)) == Some((n, seq!['R', 'p'], false)),
{
    let d = nat_decimal(n as nat);
    lemma_nat_decimal(n as nat);
    lemma_pow10_scales();
    lemma_nat_decimal_len(n as nat, 6);
    let len = d.len();
    lemma_grouped_short(d, len);
    assert(d.take(len as int) =~= d);
    let g = group_thousands(d);
    let text = rupiah(n);
    assert(text == seq!['R', 'p'] + g);
    assert(forall|k: int| 0 <= k < len ==> is_digit(#[trigger] d[k]));
    // The message is its own trimmed body, and is not income.
    assert(text[0] == 'R');
    assert(text.last() == d.last()) by {
        if len > 3 {
            assert(g.last() == d.subrange(len - 3, len as int).last());
        }
    }
    assert(is_digit(d.last()));
    lemma_trim_noop(text);
    assert(message_body(text) == (false, text));
    // The amount starts right after "Rp".
    assert(is_digit(text[2]));
    assert(first_digit(text, 2) == Some(2int));
    assert(first_digit(text, 1) == Some(2int));
    assert(first_digit(text, 0) == Some(2int));
    let end = text.len() as int;
    if len <= 3 {
        assert(text =~= seq!['R', 'p'] + d);
        assert forall|k: int| 2 <= k < end implies is_digit(#[trigger] text[k]) by {
            assert(text[k] == d[k - 2]);
        }
        lemma_digits_end_at(text, 2, end);
        assert(!has_fraction(text, end));
        assert(number_end(text, 2) == end);
        assert(ws_end(text, end) == end);
        assert(suffix_at(text, end) is None);
        assert(token_end(text, 2) == end);
        assert(text.subrange(2, end) =~= d);
        assert(token_amount(text, 2) == n);
    } else {
        let q = 2 + len - 3;
        assert(text =~= seq!['R', 'p'] + d.take(len - 3) + seq!['.'] + d.subrange(
            len - 3,
            len as int,
        ));
        assert forall|k: int| 2 <= k < q implies is_digit(#[trigger] text[k]) by {
            assert(text[k] == d[k - 2]);
        }
        assert(text[q] == '.');
        lemma_digits_end_at(text, 2, q);
        assert forall|k: int| q + 1 <= k < end implies is_digit(#[trigger] text[k]) by {
            assert(text[k] == d[k - 3]);
        }
        assert(is_digit(text[q + 1]));
        assert(has_fraction(text, q));
        lemma_digits_end_at(text, q + 1, end);
        assert(number_end(text, 2) == end);
        assert(ws_end(text, end) == end);
        assert(suffix_at(text, end) is None);
        assert(token_end(text, 2) == end);
        assert(text.subrange(2, q) =~= d.take(len - 3));
        assert(text.subrange(q + 1, end) =~= d.skip(len - 3));
        assert(d.take(len - 3) + d.skip(len - 3) =~= d);
        assert(token_amount(text, 2) == n);
    }
    // The note is what stands before the amount.
    let rp = seq!['R', 'p'];
    assert(text.subrange(0, 2) =~= rp);
    lemma_trim_noop(rp);
    assert(text.subrange(end, end) =~= Seq::<char>::empty());
    let e = Seq::<char>::empty();
    assert(trim(e) == e);
    let joined = rp + seq![' '] + e;
    assert(joined.drop_last() =~= rp);
    assert(trim_start(joined) == joined);
    assert(trim_end(joined) == trim_end(rp));
    assert(trim_end(rp) == rp);
    assert(token_note(text, 2) == rp);
}


/// Digit runs keep their shape behind a prefix.
proof fn lemma_digits_end_shift(a: Seq<char>, b: Seq<char>, i: int)
    requires
        0 <= i,
    ensures
        digits_end(a + b, a.len() + i) == a.len() + digits_end(b, i),
        digits_end(b, i) >= i,
        i <= b.len() ==> digits_end(b, i) <= b.len(),
    decreases b.len() - i,
{
    let s = a + b;
    if i < b.len() {
        assert(s[a.len() + i] == b[i]);
        if is_decimal(b[i]) {
            lemma_digits_end_shift(a, b, i + 1);
        }
    }
}

/// White-space runs keep their shape behind a prefix.
proof fn lemma_ws_end_shift(a: Seq<char>, b: Seq<char>, i: int)
    requires
        0 <= i,
    ensures
        ws_end(a + b, a.len() + i) == a.len() + ws_end(b, i),
        ws_end(b, i) >= i,
        i <= b.len() ==> ws_end(b, i) <= b.len(),
    decreases b.len() - i,
{
    let s = a + b;
    if i < b.len() {
        assert(s[a.len() + i] == b[i]);
        if is_ws(b[i]) {
            lemma_ws_end_shift(a, b, i + 1);
        }
    }
}

/// Words keep their place behind a prefix.
proof fn lemma_word_at_shift(a: Seq<char>, b: Seq<char>, i: int, w: Seq<char>)
    requires
        0 <= i,
    ensures
        word_at(a + b, a.len() + i, w) == word_at(b, i, w),
{
    let s = a + b;
    if i + w.len() < b.len() {
        assert(s[a.len() + i + w.len()] == b[i + w.len()]);
    }
    if word_at(b, i, w) {
        assert forall|j: int| 0 <= j < w.len() implies letter_is(#[trigger] s[a.len() + i + j], w[j]) by {
            assert(s[a.len() + i + j] == b[i + j]);
        }
    }
    if word_at(s, a.len() + i, w) {
        assert forall|j: int| 0 <= j < w.len() implies letter_is(#[trigger] b[i + j], w[j]) by {
            assert(s[a.len() + i + j] == b[i + j]);
        }
    }
}

/// The amount token at `p` of `b` reads the same behind any prefix.
proof fn lemma_token_shift(a: Seq<char>, b: Seq<char>, p: int)
    requires
        0 <= p < b.len(),
    ensures
        token_is_ascii(a + b, a.len() + p) == token_is_ascii(b, p),
        token_amount(a + b, a.len() + p) == token_amount(b, p),
        token_end(a + b, a.len() + p) == a.len() + token_end(b, p),
{
    let s = a + b;
    let o = a.len() as int;
    lemma_digits_end_shift(a, b, p);
    let q = digits_end(b, p);
    assert(digits_end(s, o + p) == o + q);
    assert(has_fraction(s, o + q) == has_fraction(b, q)) by {
        if 0 <= q && q + 1 < b.len() {
            assert(s[o + q] == b[q]);
            assert(s[o + q + 1] == b[q + 1]);
        }
    }
    lemma_digits_end_shift(a, b, q + 1);
    let ne = number_end(b, p);
    assert(number_end(s, o + p) == o + ne);
    lemma_ws_end_shift(a, b, ne);
    let w = ws_end(b, ne);
    assert(ws_end(s, o + ne) == o + w);
    lemma_word_at_shift(a, b, w, seq!['k']);
    lemma_word_at_shift(a, b, w, seq!['r', 'b']);
    lemma_word_at_shift(a, b, w, seq!['r', 'i', 'b', 'u']);
    lemma_word_at_shift(a, b, w, seq!['j', 't']);
    lemma_word_at_shift(a, b, w, seq!['j', 'u', 't', 'a']);
    lemma_word_at_shift(a, b, w, seq!['m']);
    assert(suffix_at(s, o + w) == suffix_at(b, w));
    assert(token_suffix(s, o + p) == token_suffix(b, p));
    assert(s.subrange(o + p, o + q) =~= b.subrange(p, q));
    if has_fraction(b, q) {
        assert(s.subrange(o + q + 1, o + ne) =~= b.subrange(q + 1, ne));
    }
}

/// The first decimal digit behind a prefix that holds none.
proof fn lemma_first_digit_shift(a: Seq<char>, b: Seq<char>, i: int)
    requires
        0 <= i <= a.len(),
        forall|k: int| 0 <= k < a.len() ==> !is_decimal(#[trigger] a[k]),
    ensures
        first_digit(a + b, i) == match first_digit(b, 0) {
            Some(p) => Some(a.len() + p),
            None => None,
        },
        first_digit(b, 0) matches Some(p) ==> 0 <= p < b.len(),
    decreases a.len() + b.len() - i,
{
    let s = a + b;
    if i < a.len() {
        assert(s[i] == a[i]);
        lemma_first_digit_shift(a, b, i + 1);
    } else {
        lemma_first_digit_shift_tail(a, b, 0);
    }
}

/// `lemma_first_digit_shift`, inside the second part.
proof fn lemma_first_digit_shift_tail(a: Seq<char>, b: Seq<char>, j: int)
    requires
        0 <= j,
    ensures
        first_digit(a + b, a.len() + j) == match first_digit(b, j) {
            Some(p) => Some(a.len() + p),
            None => None,
        },
        first_digit(b, j) matches Some(p) ==> j <= p < b.len(),
    decreases b.len() - j,
{
    let s = a + b;
    if j < b.len() {
        assert(s[a.len() + j] == b[j]);
        lemma_first_digit_shift_tail(a, b, j + 1);
    }
}

/// The amount may stand anywhere: words without digits put before a message
/// change neither whether it reads nor the amount it reads as (for a
/// trimmed message that is not marked as income).
pub proof fn law_amount_anywhere(w: Seq<char>, t: Seq<char>)
    requires
        w.len() > 0,
        !is_ws(w[0]),
        w[0] != '+',
        forall|k: int| 0 <= k < w.len() ==> !is_decimal(#[trigger] w[k]),
        trim(t) == t,
        t.len() > 0 ==> t[0] != '+',
    ensures
        parse_spec(w + seq![' '] + t) is Some <==> parse_spec(t) is Some,
        parse_spec(w + seq![' '] + t) matches Some((a1, _, inc1)) ==> parse_spec(t) matches Some(
            (a2, _, inc2),
        ) && a1 == a2 && !inc1 && !inc2,
{
    let a = w + seq![' '];
    let s = a + t;
    assert(w + seq![' '] + t == s);
    assert forall|k: int| 0 <= k < a.len() implies !is_decimal(#[trigger] a[k]) by {
        if k < w.len() {
            assert(a[k] == w[k]);
        } else {
            assert(a[k] == ' ');
        }
    }
    assert(message_body(t) == (false, t));
    assert(s[0] == w[0]);
    assert(trim_start(s) == s);
    crate::text::lemma_trimmed(t);
    if t.len() > 0 {
        assert(s.last() == t.last());
        assert(trim_end(s) == s);
        assert(message_body(s) == (false, s));
        lemma_first_digit_shift(a, t, 0);
        match first_digit(t, 0) {
            Some(p) => {
                lemma_token_shift(a, t, p);
            },
            None => {},
        }
    } else {
        assert(first_digit(t, 0) is None);
        let body = message_body(s).1;
        lemma_trim_end_cons(w[0], w.drop_first() + seq![' ']);
        assert(seq![w[0]] + (w.drop_first() + seq![' ']) =~= s);
        crate::text::lemma_trim_end_prefix(s);
        assert(trim(s) == trim_end(s));
        assert(trim_end(s)[0] == w[0]);
        assert(body == trim_end(s));
        assert forall|k: int| 0 <= k < body.len() implies !is_decimal(#[trigger] body[k]) by {
            assert(body[k] == s[k]);
            assert(s[k] == a[k]);
        }
        lemma_first_digit_shift(body, Seq::<char>::empty(), 0);
        assert(body + Seq::<char>::empty() =~= body);
        assert(first_digit(Seq::<char>::empty(), 0) is None);
    }
}

} // verus!
