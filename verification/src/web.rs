//! Which month a request to the read-only dashboard asks for (who may read
//! it is decided in `session`).

use vstd::prelude::*;
use crate::clock::{jakarta_date, jakarta_date_of, jakarta_midnight, jakarta_midnight_of};
use crate::report::{lemma_month_bounds, next_month, spans_month};
use crate::text::{
    all_digits, digits_value, int_syntax, is_digit, lemma_digits_lack, lemma_digits_value_concat,
    lemma_index_after, lemma_nat_decimal, pow10, chars_of, find_char, index_of, nat_decimal, parse_int, parse_int_chars, push_nat_decimal,
    string_from_chars,
};

verus! {

/// `k` zeros (none where `k` is not positive).
pub open spec fn zeros(k: int) -> Seq<char> {
    Seq::new(if k > 0 {
        k as nat
    } else {
        0
    }, |i: int| '0')
}

/// `n` in decimal padded with zeros to `width` chars, the sign counting
/// toward the width, as `format!("{:0w$}", n)` writes it.
pub open spec fn zero_padded(n: int, width: int) -> Seq<char> {
    if n < 0 {
        seq!['-'] + zeros(width - 1 - nat_decimal((-n) as nat).len()) + nat_decimal((-n) as nat)
    } else {
        zeros(width - nat_decimal(n as nat).len()) + nat_decimal(n as nat)
    }
}

/// The label of a month, "YYYY-MM".
pub open spec fn month_label_spec(y: int, m: int) -> Seq<char> {
    zero_padded(y, 4) + seq!['-'] + zero_padded(m, 2)
}

/// Appends `n`, zero-padded to `width`, to `out`.
fn push_zero_padded(n: i64, width: usize, out: &mut Vec<char>)
    ensures
        final(out)@ == old(out)@ + zero_padded(n as int, width as int),
{
    let mut digits: Vec<char> = Vec::new();
    let m: u64 = if n < 0 {
        (-(n as i128)) as u64
    } else {
        n as u64
    };
    push_nat_decimal(m, &mut digits);
    assert(digits@ =~= nat_decimal(m as nat));
    let ghost start = old(out)@;
    let mut fill: usize = if n < 0 {
        out.push('-');
        if width > digits.len() && width - digits.len() > 1 {
            width - digits.len() - 1
        } else {
            0
        }
    } else {
        if width > digits.len() {
            width - digits.len()
        } else {
            0
        }
    };
    let ghost sign = if n < 0 {
        seq!['-']
    } else {
        Seq::<char>::empty()
    };
    let ghost total = fill;
    assert(out@ =~= start + sign);
    while fill > 0
        invariant
            fill <= total,
            out@ == start + sign + zeros((total - fill) as int),
        decreases fill,
    {
        out.push('0');
        assert(out@ =~= start + sign + zeros((total - fill + 1) as int));
        fill = fill - 1;
    }
    let mut i: usize = 0;
    while i < digits.len()
        invariant
            i <= digits.len(),
            out@ == start + sign + zeros(total as int) + digits@.take(i as int),
        decreases digits.len() - i,
    {
        out.push(digits[i]);
        assert(out@ =~= start + sign + zeros(total as int) + digits@.take(i + 1));
        i = i + 1;
    }
    assert(digits@.take(digits.len() as int) =~= digits@);
    assert(zeros(total as int) =~= if n < 0 {
        zeros(width - 1 - nat_decimal(m as nat).len())
    } else {
        zeros(width - nat_decimal(m as nat).len())
    });
    assert(final(out)@ =~= start + zero_padded(n as int, width as int));
}

/// Formats a month label: `format!("{:04}-{:02}", y, m)`.
pub fn month_label(y: i32, m: u32) -> (r: String)
    ensures
        r@ == month_label_spec(y as int, m as int),
{
    let mut out: Vec<char> = Vec::new();
    push_zero_padded(y as i64, 4, &mut out);
    out.push('-');
    push_zero_padded(m as i64, 2, &mut out);
    assert(out@ =~= month_label_spec(y as int, m as int));
    string_from_chars(&out)
}

/// The year and month a `month` parameter names ("2024-05"): the text
/// before the first '-' read as an `i32` and the text after it as a `u32`.
pub open spec fn month_param(s: Seq<char>) -> Option<(int, int)> {
    match index_of(s, '-', 0) {
        Some(i) => match (
            parse_int(s.take(i), true, i32::MIN as int, i32::MAX as int),
            parse_int(s.skip(i + 1), false, 0, u32::MAX as int),
        ) {
            (Some(y), Some(m)) => Some((y, m)),
            _ => None,
        },
        None => None,
    }
}

/// Reads a `month` parameter.
pub fn parse_month_param(s: &str) -> (r: Option<(i32, u32)>)
    ensures
        match r {
            Some((y, m)) => month_param(s@) == Some((y as int, m as int)),
            None => month_param(s@) is None,
        },
{
    let v = chars_of(s);
    let n = v.len();
    assert(v@.subrange(0, n as int) =~= s@);
    match find_char(&v, 0, n, '-') {
        Some(i) => {
            assert(s@.take(i as int) =~= v@.subrange(0, i as int));
            assert(s@.skip(i + 1) =~= v@.subrange(i + 1, n as int));
            let y = parse_int_chars(&v, 0, i, true, i32::MIN as i128, i32::MAX as i128);
            let m = parse_int_chars(&v, i + 1, n, false, 0, u32::MAX as i128);
            match (y, m) {
                (Some(y), Some(m)) => Some((y as i32, m as u32)),
                _ => None,
            }
        },
        None => None,
    }
}

/// The month that a dashboard request asks for, as `(from, to, label)`:
/// the `month` parameter where there is one, else the current Jakarta month;
/// nothing where the parameter cannot be read, the month is not 1..=12, or
/// the calendar cannot place it.
pub open spec fn dashboard_month(month: Option<Seq<char>>, now: i64) -> Option<(i64, i64, Seq<char>)> {
    let ym = match month {
        Some(s) => month_param(s),
        None => match jakarta_date(now) {
            Some((y, m, _)) => Some((y as int, m as int)),
            None => None,
        },
    };
    match ym {
        None => None,
        Some((y, m)) => if !(1 <= m <= 12) {
            None
        } else {
            match jakarta_midnight(y as i32, m as u32, 1) {
                None => None,
                Some(s) => {
                    let (ny, nm) = next_month(y, m);
                    match jakarta_midnight(ny as i32, nm as u32, 1) {
                        Some(e) => Some((s, e, month_label_spec(y, m))),
                        None => None,
                    }
                },
            }
        },
    }
}

/// The year and month a dashboard request names: the `month` parameter
/// where there is one, else the Jakarta month that holds `now`.
pub open spec fn requested_month(month: Option<Seq<char>>, now: i64) -> Option<(int, int)> {
    match month {
        Some(s) => month_param(s),
        None => match jakarta_date(now) {
            Some((y, m, _)) => Some((y as int, m as int)),
            None => None,
        },
    }
}

/// The month a dashboard request asks for (see `dashboard_month`).
pub fn month_range(month: Option<&str>, now: i64) -> (r: Option<(i64, i64, String)>)
    ensures
        match r {
            Some((s, e, label)) => dashboard_month(
                match month {
                    Some(t) => Some(t@),
                    None => None,
                },
                now,
            ) == Some((s, e, label@)),
            None => dashboard_month(
                match month {
                    Some(t) => Some(t@),
                    None => None,
                },
                now,
            ) is None,
        },
        month is None ==> (r matches Some((s, e, _)) ==> (jakarta_date(now) matches Some(
            (y, _, _),
        ) && y >= 1965 ==> s <= now < e)),
        month is None ==> (jakarta_date(now) matches Some((y, _, _)) ==> (1965 <= y < 262142
            ==> r is Some)),
        month matches Some(t) ==> (month_param(t@) matches Some((y, m)) ==> (1965 <= y < 262142
            && 1 <= m <= 12 ==> r is Some)),
        match (
            r,
            requested_month(
                match month {
                    Some(t) => Some(t@),
                    None => None,
                },
                now,
            ),
        ) {
            (Some((s, e, _)), Some((y, m))) => y >= 1965 ==> spans_month(s, e, y, m),
            _ => true,
        },
{
    let ym = match month {
        Some(s) => parse_month_param(s),
        None => match jakarta_date_of(now) {
            Some((y, m, _)) => Some((y, m)),
            None => None,
        },
    };
    let (y, m) = match ym {
        Some(p) => p,
        None => {
            return None;
        },
    };
    if !(1 <= m && m <= 12) {
        return None;
    }
    let start = match jakarta_midnight_of(y, m, 1) {
        Some(s) => s,
        None => {
            return None;
        },
    };
    let (ny, nm) = if m == 12 {
        (y + 1, 1)
    } else {
        (y, m + 1)
    };
    let end = match jakarta_midnight_of(ny, nm, 1) {
        Some(e) => e,
        None => {
            return None;
        },
    };
    proof {
        if y >= 1965 {
            lemma_month_bounds(y, m, start, end);
        }
    }
    Some((start, end, month_label(y, m)))
}


/// Zeros are digits worth nothing.
proof fn lemma_zeros(k: int)
    ensures
        all_digits(zeros(k)),
        digits_value(zeros(k)) == 0,
    decreases k,
{
    if k > 0 {
        lemma_zeros(k - 1);
        assert(zeros(k).drop_last() =~= zeros(k - 1));
        assert(zeros(k).last() == '0');
    } else {
        assert(zeros(k) =~= Seq::<char>::empty());
    }
}

/// A non-negative number, zero-padded, is a digit string worth the number.
proof fn lemma_zero_padded_digits(n: int, width: int)
    requires
        n >= 0,
    ensures
        zero_padded(n, width).len() >= 1,
        all_digits(zero_padded(n, width)),
        digits_value(zero_padded(n, width)) == n,
{
    let d = nat_decimal(n as nat);
    let z = zeros(width - d.len());
    lemma_nat_decimal(n as nat);
    lemma_zeros(width - d.len());
    lemma_digits_value_concat(z, d);
    let p = z + d;
    assert(all_digits(p)) by {
        assert forall|i: int| 0 <= i < p.len() implies is_digit(#[trigger] p[i]) by {
            if i < z.len() {
                assert(p[i] == z[i]);
            } else {
                assert(p[i] == d[i - z.len()]);
            }
        }
    }
}

/// The month label that the dashboard reports ("2024-05") asks, when sent
/// back as the `month` parameter, for that same month (for years from 0).
pub proof fn law_month_label_reads_back(y: i32, m: u32)
    requires
        0 <= y,
        1 <= m <= 12,
    ensures
        month_param(month_label_spec(y as int, m as int)) == Some((y as int, m as int)),
{
    let a = zero_padded(y as int, 4);
    let b = zero_padded(m as int, 2);
    lemma_zero_padded_digits(y as int, 4);
    lemma_zero_padded_digits(m as int, 2);
    lemma_digits_lack(a, '-');
    lemma_index_after(a, b, '-');
    let label = month_label_spec(y as int, m as int);
    assert(label == a + seq!['-'] + b);
    assert(label.take(a.len() as int) =~= a);
    assert(label.skip(a.len() + 1 as int) =~= b);
    assert(is_digit(a[0]));
    assert(is_digit(b[0]));
    assert(int_syntax(a, true) == Some(y as int));
    assert(int_syntax(b, false) == Some(m as int));
}

} // verus!
