//! Text reports for /hariini and /bulanini. Every period is counted in
//! Jakarta time (WIB).

use vstd::prelude::*;
use crate::clock::{date_before, jakarta_date, jakarta_date_of, jakarta_midnight, jakarta_midnight_of};
use crate::db::CategorySum;
use crate::parser::{format_rupiah, rupiah};
use crate::text::occurs_at;

verus! {

/// The month after `m` of year `y`.
pub open spec fn next_month(y: int, m: int) -> (int, int) {
    if m == 12 {
        (y + 1, 1)
    } else {
        (y, m + 1)
    }
}

/// The instants from `s` up to `e` are exactly those whose Jakarta date
/// falls in month `m` of year `y` (of the dates a calendar can show).
pub open spec fn spans_month(s: i64, e: i64, y: int, m: int) -> bool {
    forall|ts: i64|
        #![trigger jakarta_date(ts)]
        match jakarta_date(ts) {
            Some((yy, mm, dd)) => 1 <= mm <= 12 && 1 <= dd ==> ((s <= ts < e) <==> (yy == y && mm
                == m)),
            None => true,
        }
}

/// Where month `y-m` starts at `s` and the month after it at `e`, the span
/// from `s` to `e` is that month.
pub proof fn lemma_month_bounds(y: i32, m: u32, s: i64, e: i64)
    requires
        1 <= m <= 12,
        forall|ts: i64|
            #[trigger] jakarta_date(ts) matches Some(dt) ==> (date_before(dt, (y, m, 1u32)) <==> ts
                < s),
        forall|ts: i64|
            #[trigger] jakarta_date(ts) matches Some(dt) ==> (date_before(
                dt,
                (
                    (if m == 12 {
                        y + 1
                    } else {
                        y as int
                    }) as i32,
                    (if m == 12 {
                        1
                    } else {
                        m + 1
                    }) as u32,
                    1u32,
                ),
            ) <==> ts < e),
        y < i32::MAX,
    ensures
        spans_month(s, e, y as int, m as int),
{
}

/// The Jakarta day that holds `now`, as a half-open span of instants.
pub open spec fn day_span(now: i64) -> Option<(i64, i64)> {
    match jakarta_date(now) {
        Some((y, m, d)) => match jakarta_midnight(y, m, d) {
            Some(s) => if s + 86400 <= i64::MAX {
                Some((s, (s + 86400) as i64))
            } else {
                None
            },
            None => None,
        },
        None => None,
    }
}

/// The Jakarta month that holds `now`, as a half-open span of instants.
pub open spec fn month_span(now: i64) -> Option<(i64, i64)> {
    match jakarta_date(now) {
        Some((y, m, _)) => match jakarta_midnight(y, m, 1) {
            Some(s) => {
                let (ny, nm) = next_month(y as int, m as int);
                match jakarta_midnight(ny as i32, nm as u32, 1) {
                    Some(e) => Some((s, e)),
                    None => None,
                }
            },
            None => None,
        },
        None => None,
    }
}

/// Today in Jakarta as `(from, to)` instants. `None` only where the
/// calendar cannot place `now` or its midnight.
pub fn today_range(now: i64) -> (r: Option<(i64, i64)>)
    ensures
        r == day_span(now),
        r matches Some((s, e)) ==> (jakarta_date(now) matches Some((y, _, _)) && y >= 1965 ==> s
            <= now < e),
        jakarta_date(now) matches Some((y, _, _)) ==> (1965 <= y <= 262142 ==> r is Some),
        match (r, jakarta_date(now)) {
            (Some((s, e)), Some((y, _, _))) => y >= 1965 ==> forall|ts: i64|
                #[trigger] jakarta_date(ts) == jakarta_date(now) ==> s <= ts < e,
            _ => true,
        },
{
    match jakarta_date_of(now) {
        Some((y, m, d)) => match jakarta_midnight_of(y, m, d) {
            Some(s) => match s.checked_add(86400) {
                Some(e) => Some((s, e)),
                None => None,
            },
            None => None,
        },
        None => None,
    }
}

/// This month in Jakarta as `(from, to)` instants: from the first of the
/// month to the first of the next.
pub fn month_range(now: i64) -> (r: Option<(i64, i64)>)
    ensures
        r == month_span(now),
        r matches Some((s, e)) ==> (jakarta_date(now) matches Some((y, _, _)) && y >= 1965 ==> s
            <= now < e),
        jakarta_date(now) matches Some((y, _, _)) ==> (1965 <= y < 262142 ==> r is Some),
        match (r, jakarta_date(now)) {
            (Some((s, e)), Some((y, m, _))) => y >= 1965 ==> spans_month(s, e, y as int, m as int),
            _ => true,
        },
{
    match jakarta_date_of(now) {
        Some((y, m, _)) => match jakarta_midnight_of(y, m, 1) {
            Some(s) => {
                let (ny, nm) = if m == 12 {
                    (y + 1, 1)
                } else {
                    (y, m + 1)
                };
                match jakarta_midnight_of(ny, nm, 1) {
                    Some(e) => {
                        proof {
                            if y >= 1965 {
                                lemma_month_bounds(y, m, s, e);
                            }
                        }
                        Some((s, e))
                    },
                    None => None,
                }
            },
            None => None,
        },
        None => None,
    }
}

/// One line of the category breakdown: emoji, name and total.
pub open spec fn category_line(c: CategorySum) -> Seq<char> {
    c.emoji@ + " "@ + c.name@ + " — "@ + rupiah(c.total as int) + "\n"@
}

/// The breakdown lines of the first `k` categories.
pub open spec fn category_lines(sums: Seq<CategorySum>, k: nat) -> Seq<char>
    decreases k,
{
    if k == 0 || k > sums.len() {
        Seq::empty()
    } else {
        category_lines(sums, (k - 1) as nat) + category_line(sums[k - 1])
    }
}

/// The absolute value.
pub open spec fn abs(x: int) -> int {
    if x < 0 {
        -x
    } else {
        x
    }
}

/// The report text: a title, one line per spending category (or a note that
/// nothing was spent), the total spent, and where something came in, the
/// income and the difference, marked by whether income covers spending.
pub open spec fn report_text(title: Seq<char>, sums: Seq<CategorySum>, income: int, expense: int) -> Seq<char> {
    "📊 *"@ + title + "*\n\n"@ + (if sums.len() == 0 {
        "Belum ada pengeluaran. Dompet aman... untuk sekarang 😌\n"@
    } else {
        category_lines(sums, sums.len()) + "\n"@
    }) + "💸 Total keluar: "@ + rupiah(expense) + "\n"@ + (if income > 0 {
        "💰 Total masuk: "@ + rupiah(income) + "\n"@ + (if income - expense >= 0 {
            "✅"@
        } else {
            "🔻"@
        }) + " Selisih: "@ + rupiah(abs(income - expense)) + "\n"@
    } else {
        Seq::empty()
    })
}

/// The breakdown lines of the first `k` categories are where the lines of
/// the first `n` start.
proof fn lemma_category_lines_prefix(sums: Seq<CategorySum>, k: nat, n: nat)
    requires
        k <= n <= sums.len(),
    ensures
        category_lines(sums, k).len() <= category_lines(sums, n).len(),
        category_lines(sums, n).subrange(0, category_lines(sums, k).len() as int) == category_lines(
            sums,
            k,
        ),
    decreases n,
{
    if k < n {
        lemma_category_lines_prefix(sums, k, (n - 1) as nat);
        let a = category_lines(sums, (n - 1) as nat);
        let b = category_line(sums[n - 1]);
        assert(category_lines(sums, n) == a + b);
        assert((a + b).subrange(0, category_lines(sums, k).len() as int) =~= a.subrange(
            0,
            category_lines(sums, k).len() as int,
        ));
    } else {
        assert(category_lines(sums, n).subrange(0, category_lines(sums, n).len() as int) =~= category_lines(sums, n));
    }
}

/// A report lists every category row it is given, in the order given: after
/// its title come the lines of the categories one after the other, one line
/// each, and then, after an empty line, the total spent.
pub proof fn law_report_lists_every_category(
    title: Seq<char>,
    sums: Seq<CategorySum>,
    income: int,
    expense: int,
)
    requires
        sums.len() > 0,
    ensures
        ({
            let text = report_text(title, sums, income, expense);
            let header = "📊 *"@ + title + "*\n\n"@;
            &&& text.take(header.len() as int) == header
            &&& exists|p: Seq<int>|
                {
                    &&& p.len() == sums.len()
                    &&& p[0] == header.len()
                    &&& forall|k: int|
                        0 <= k < sums.len() ==> occurs_at(text, category_line(sums[k]), #[trigger] p[k])
                    &&& forall|k: int|
                        0 <= k < sums.len() - 1 ==> #[trigger] p[k + 1] == p[k] + category_line(
                            sums[k],
                        ).len()
                    &&& occurs_at(
                        text,
                        "\n💸 Total keluar: "@,
                        p[sums.len() - 1] + category_line(sums[sums.len() - 1]).len(),
                    )
                }
        }),
{
    let text = report_text(title, sums, income, expense);
    let header = "📊 *"@ + title + "*\n\n"@;
    let n = sums.len();
    let all = category_lines(sums, n);
    let tail = "💸 Total keluar: "@ + rupiah(expense) + "\n"@ + (if income > 0 {
        "💰 Total masuk: "@ + rupiah(income) + "\n"@ + (if income - expense >= 0 {
            "✅"@
        } else {
            "🔻"@
        }) + " Selisih: "@ + rupiah(abs(income - expense)) + "\n"@
    } else {
        Seq::empty()
    });
    assert(text =~= header + all + ("\n"@ + tail));
    assert(text.take(header.len() as int) =~= header);
    let p: Seq<int> = Seq::new(n, |k: int| (header.len() + category_lines(sums, k as nat).len()) as int);
    assert forall|k: int| 0 <= k < n implies occurs_at(text, category_line(sums[k]), #[trigger] p[k]) by {
        lemma_category_lines_prefix(sums, (k + 1) as nat, n);
        let a = category_lines(sums, k as nat);
        let line = category_line(sums[k]);
        assert(category_lines(sums, (k + 1) as nat) == a + line);
        let pre = all.subrange(0, (a + line).len() as int);
        assert(pre == a + line);
        assert(text.subrange(p[k], p[k] + line.len()) =~= pre.subrange(a.len() as int, (a + line).len() as int));
        assert(pre.subrange(a.len() as int, (a + line).len() as int) =~= line);
    }
    assert forall|k: int| 0 <= k < n - 1 implies #[trigger] p[k + 1] == p[k] + category_line(sums[k]).len() by {
        assert(category_lines(sums, (k + 1) as nat) == category_lines(sums, k as nat) + category_line(sums[k]));
    }
    assert(category_lines(sums, n) == category_lines(sums, (n - 1) as nat) + category_line(sums[n - 1]));
    assert(category_lines(sums, 0) =~= Seq::<char>::empty());
    assert(p[0] == header.len());
    let end = p[n - 1] + category_line(sums[n - 1]).len();
    assert(end == header.len() + all.len());
    let lit = "\n💸 Total keluar: "@;
    reveal_strlit("\n💸 Total keluar: ");
    reveal_strlit("\n");
    reveal_strlit("💸 Total keluar: ");
    assert(lit =~= "\n"@ + "💸 Total keluar: "@);
    assert(text.subrange(end, end + lit.len()) =~= lit);
}

/// Renders the report for a period from its category totals and its income
/// and expense totals.
#[verifier::rlimit(30)]
pub fn render_report(title: &str, sums: &Vec<CategorySum>, income: i64, expense: i64) -> (r: String)
    requires
        income > 0 ==> income - expense <= i64::MAX,
    ensures
        r@ == report_text(title@, sums@, income as int, expense as int),
{
    let mut out = String::new();
    out.append("📊 *");
    out.append(title);
    out.append("*\n\n");
    let ghost head = out@;
    if sums.len() == 0 {
        out.append("Belum ada pengeluaran. Dompet aman... untuk sekarang 😌\n");
    } else {
        let mut i: usize = 0;
        while i < sums.len()
            invariant
                i <= sums.len(),
                out@ == head + category_lines(sums@, i as nat),
            decreases sums.len() - i,
        {
            let row = &sums[i];
            out.append(row.emoji.as_str());
            out.append(" ");
            out.append(row.name.as_str());
            out.append(" — ");
            let amount = format_rupiah(row.total);
            out.append(amount.as_str());
            out.append("\n");
            assert(out@ =~= head + category_lines(sums@, (i + 1) as nat));
            i = i + 1;
        }
        out.append("\n");
    }
    out.append("💸 Total keluar: ");
    let spent = format_rupiah(expense);
    out.append(spent.as_str());
    out.append("\n");
    if income > 0 {
        out.append("💰 Total masuk: ");
        let earned = format_rupiah(income);
        out.append(earned.as_str());
        out.append("\n");
        let net = income - expense;
        if net >= 0 {
            out.append("✅");
        } else {
            out.append("🔻");
        }
        out.append(" Selisih: ");
        let diff = format_rupiah(if net < 0 {
            -net
        } else {
            net
        });
        out.append(diff.as_str());
        out.append("\n");
    }
    assert(out@ =~= report_text(title@, sums@, income as int, expense as int));
    out
}


} // verus!
