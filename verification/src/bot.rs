//! What the Telegram bot decides: whom it serves, what each command does,
//! the keyboard it offers after an expense, how it reads a button press, and
//! the texts it replies with. Sending and storing stay with the caller.

use vstd::prelude::*;
use crate::db::{Category, TxRow};
use crate::parser::{format_rupiah, parse, parse_spec, rupiah, ParsedInput};
use crate::text::{
    int_syntax, is_digit, is_ws, lemma_index_after, lemma_int_decimal_chars,
    lemma_int_decimal_parses, lemma_lacks, lemma_trim_noop,
    after_first, before_first, index_of, occurs_at, chars_of, copy_range, decimal_string, find_char, int_decimal,
    parse_int, parse_int_chars, starts_with, strip_leading, trim, trim_bounds,
};

verus! {

/// Only the owner is served; everybody else is ignored. A missing sender
/// is nobody. Telegram's unsigned user id is compared as `i64`, as the
/// stored owner id is.
pub fn is_owner(owner_id: i64, user_id: Option<u64>) -> (r: bool)
    ensures
        r == (user_id matches Some(u) && u as i64 == owner_id),
{
    match user_id {
        Some(u) => u as i64 == owner_id,
        None => false,
    }
}

/// The bot's commands.
#[derive(Debug, Clone, PartialEq, Eq)]
pub enum Command {
    /// /start: help.
    Start,
    /// /hariini: today's report.
    Hariini,
    /// /bulanini: this month's report.
    Bulanini,
    /// /riwayat: the latest transactions.
    Riwayat,
    /// /hapus <id>: delete a transaction.
    Hapus(String),
}

/// What a command asks the caller to do.
#[derive(Debug, Clone, PartialEq, Eq)]
pub enum CommandStep {
    /// Reply with this text.
    Reply(String),
    /// Build and send today's report.
    TodayReport,
    /// Build and send this month's report.
    MonthReport,
    /// List this many latest transactions (see `history_text`).
    RecentTransactions(i64),
    /// Delete this transaction (see `delete_reply`).
    DeleteTransaction(i64),
}

/// The help text of /start.
pub open spec fn help_spec() -> Seq<char> {
    "Halo! Aku pencatat keuanganmu 💰\n\nCara pakai:\n• `15k soto` → catat pengeluaran\n• `+5jt gaji` → catat pemasukan\n• /hariini → rekap hari ini\n• /bulanini → rekap bulan ini\n• /riwayat → transaksi terakhir\n• /hapus 2 → hapus transaksi #2"@
}

/// The reply to a /hapus whose argument is not a transaction number.
pub open spec fn hapus_usage_spec() -> Seq<char> {
    "Formatnya: `/hapus 2` (angka dari /riwayat)"@
}

/// The transaction number in a /hapus argument: trimmed, any leading '#'
/// dropped, read as an `i64`.
pub open spec fn tx_ref_spec(arg: Seq<char>) -> Option<int> {
    parse_int(strip_leading(trim(arg), '#'), true, i64::MIN as int, i64::MAX as int)
}

/// Reads the transaction number of a /hapus argument ("2", " #2 ").
pub fn parse_tx_ref(arg: &str) -> (r: Option<i64>)
    ensures
        match r {
            Some(id) => tx_ref_spec(arg@) == Some(id as int),
            None => tx_ref_spec(arg@) is None,
        },
{
    let v = chars_of(arg);
    let (a, b) = trim_bounds(&v, 0, v.len());
    assert(v@.subrange(0, v.len() as int) =~= arg@);
    let mut i = a;
    while i < b && v[i] == '#'
        invariant
            a <= i <= b <= v.len(),
            strip_leading(v@.subrange(i as int, b as int), '#') == strip_leading(
                v@.subrange(a as int, b as int),
                '#',
            ),
        decreases b - i,
    {
        assert(v@.subrange(i as int, b as int).drop_first() =~= v@.subrange(i + 1, b as int));
        i = i + 1;
    }
    match parse_int_chars(&v, i, b, true, i64::MIN as i128, i64::MAX as i128) {
        Some(x) => Some(x as i64),
        None => None,
    }
}

/// What a command does: /start answers with help, the reports and the
/// history are fetched, /hapus deletes the numbered transaction or, where no
/// number can be read, answers how to write it.
pub open spec fn command_step_is(cmd: Command, r: CommandStep) -> bool {
    match (cmd, r) {
            (Command::Start, CommandStep::Reply(text)) => text@ == help_spec(),
            (Command::Start, _) => false,
            (Command::Hariini, step) => step == CommandStep::TodayReport,
            (Command::Bulanini, step) => step == CommandStep::MonthReport,
            (Command::Riwayat, step) => step == CommandStep::RecentTransactions(5),
            (Command::Hapus(arg), CommandStep::DeleteTransaction(id)) => tx_ref_spec(arg@) == Some(
                id as int,
            ),
            (Command::Hapus(arg), CommandStep::Reply(text)) => tx_ref_spec(arg@) is None
                && text@ == hapus_usage_spec(),
            (Command::Hapus(_), _) => false,
    }
}

/// Decides what a command does (see `command_step_is`).
pub fn command_step(cmd: &Command) -> (r: CommandStep)
    ensures
        command_step_is(*cmd, r),
{
    match cmd {
        Command::Start => CommandStep::Reply(
            String::from_str(
                "Halo! Aku pencatat keuanganmu 💰\n\nCara pakai:\n• `15k soto` → catat pengeluaran\n• `+5jt gaji` → catat pemasukan\n• /hariini → rekap hari ini\n• /bulanini → rekap bulan ini\n• /riwayat → transaksi terakhir\n• /hapus 2 → hapus transaksi #2",
            ),
        ),
        Command::Hariini => CommandStep::TodayReport,
        Command::Bulanini => CommandStep::MonthReport,
        Command::Riwayat => CommandStep::RecentTransactions(5),
        Command::Hapus(arg) => match parse_tx_ref(arg.as_str()) {
            Some(id) => CommandStep::DeleteTransaction(id),
            None => CommandStep::Reply(
                String::from_str("Formatnya: `/hapus 2` (angka dari /riwayat)"),
            ),
        },
    }
}


/// A transaction's line in the history: number, amount, note ("-" without
/// one) and category ("?" without one).
pub open spec fn history_line(t: TxRow) -> Seq<char> {
    "`#"@ + int_decimal(t.id as int) + "` "@ + rupiah(t.amount as int) + " — "@ + (match t.note {
        Some(n) => n@,
        None => "-"@,
    }) + " ("@ + (match t.category {
        Some(c) => c@,
        None => "?"@,
    }) + ")\n"@
}

/// The history lines of the first `k` transactions.
pub open spec fn history_lines(txs: Seq<TxRow>, k: nat) -> Seq<char>
    decreases k,
{
    if k == 0 || k > txs.len() {
        Seq::empty()
    } else {
        history_lines(txs, (k - 1) as nat) + history_line(txs[k - 1])
    }
}

/// The /riwayat reply for the latest transactions.
pub open spec fn history_spec(txs: Seq<TxRow>) -> Seq<char> {
    if txs.len() == 0 {
        "Belum ada transaksi."@
    } else {
        "🕐 *Transaksi terakhir:*\n\n"@ + history_lines(txs, txs.len())
    }
}

/// Renders one history line.
fn history_line_text(t: &TxRow) -> (r: String)
    ensures
        r@ == history_line(*t),
{
    let mut out = String::from_str("`#");
    let id = decimal_string(t.id);
    out.append(id.as_str());
    out.append("` ");
    let amount = format_rupiah(t.amount);
    out.append(amount.as_str());
    out.append(" — ");
    match &t.note {
        Some(n) => out.append(n.as_str()),
        None => out.append("-"),
    }
    out.append(" (");
    match &t.category {
        Some(c) => out.append(c.as_str()),
        None => out.append("?"),
    }
    out.append(")\n");
    out
}

/// Renders the /riwayat reply.
pub fn history_text(txs: &Vec<TxRow>) -> (r: String)
    ensures
        r@ == history_spec(txs@),
{
    if txs.len() == 0 {
        return String::from_str("Belum ada transaksi.");
    }
    let mut out = String::from_str("🕐 *Transaksi terakhir:*\n\n");
    let ghost head = out@;
    let mut i: usize = 0;
    while i < txs.len()
        invariant
            i <= txs.len(),
            out@ == head + history_lines(txs@, i as nat),
        decreases txs.len() - i,
    {
        let line = history_line_text(&txs[i]);
        out.append(line.as_str());
        assert(out@ =~= head + history_lines(txs@, (i + 1) as nat));
        i = i + 1;
    }
    out
}

/// The lines of the first `k` transactions are where the lines of the first
/// `n` start.
proof fn lemma_history_lines_prefix(txs: Seq<TxRow>, k: nat, n: nat)
    requires
        k <= n <= txs.len(),
    ensures
        history_lines(txs, k).len() <= history_lines(txs, n).len(),
        history_lines(txs, n).subrange(0, history_lines(txs, k).len() as int) == history_lines(
            txs,
            k,
        ),
    decreases n,
{
    if k < n {
        lemma_history_lines_prefix(txs, k, (n - 1) as nat);
        let a = history_lines(txs, (n - 1) as nat);
        let b = history_line(txs[n - 1]);
        assert(history_lines(txs, n) == a + b);
        assert((a + b).subrange(0, history_lines(txs, k).len() as int) =~= a.subrange(
            0,
            history_lines(txs, k).len() as int,
        ));
    } else {
        assert(history_lines(txs, n).subrange(0, history_lines(txs, n).len() as int) =~= history_lines(txs, n));
    }
}

/// The /riwayat reply lists every transaction it is given, in the order
/// given: after its header come the lines of the transactions one after the
/// other, one line each, and nothing else.
pub proof fn law_history_lists_every_transaction(txs: Seq<TxRow>)
    requires
        txs.len() > 0,
    ensures
        ({
            let text = history_spec(txs);
            let header = "🕐 *Transaksi terakhir:*\n\n"@;
            &&& text.take(header.len() as int) == header
            &&& exists|p: Seq<int>|
                {
                    &&& p.len() == txs.len()
                    &&& p[0] == header.len()
                    &&& forall|k: int|
                        0 <= k < txs.len() ==> occurs_at(text, history_line(txs[k]), #[trigger] p[k])
                    &&& forall|k: int|
                        0 <= k < txs.len() - 1 ==> #[trigger] p[k + 1] == p[k] + history_line(
                            txs[k],
                        ).len()
                    &&& p[txs.len() - 1] + history_line(txs[txs.len() - 1]).len() == text.len()
                }
        }),
{
    let text = history_spec(txs);
    let header = "🕐 *Transaksi terakhir:*\n\n"@;
    let n = txs.len();
    let all = history_lines(txs, n);
    assert(text == header + all);
    assert(text.take(header.len() as int) =~= header);
    let p: Seq<int> = Seq::new(n, |k: int| (header.len() + history_lines(txs, k as nat).len()) as int);
    assert forall|k: int| 0 <= k < n implies occurs_at(text, history_line(txs[k]), #[trigger] p[k]) by {
        lemma_history_lines_prefix(txs, (k + 1) as nat, n);
        let a = history_lines(txs, k as nat);
        let line = history_line(txs[k]);
        assert(history_lines(txs, (k + 1) as nat) == a + line);
        let pre = all.subrange(0, (a + line).len() as int);
        assert(pre == a + line);
        assert(text.subrange(p[k], p[k] + line.len()) =~= pre.subrange(a.len() as int, (a + line).len() as int));
        assert(pre.subrange(a.len() as int, (a + line).len() as int) =~= line);
    }
    assert forall|k: int| 0 <= k < n - 1 implies #[trigger] p[k + 1] == p[k] + history_line(txs[k]).len() by {
        assert(history_lines(txs, (k + 1) as nat) == history_lines(txs, k as nat) + history_line(txs[k]));
    }
    assert(history_lines(txs, n) == history_lines(txs, (n - 1) as nat) + history_line(txs[n - 1]));
    assert(history_lines(txs, 0) =~= Seq::<char>::empty());
    assert(p[0] == header.len());
}

/// The reply after a /hapus: whether the transaction was found and deleted.
pub open spec fn delete_reply_spec(tx_id: int, deleted: bool) -> Seq<char> {
    if deleted {
        "🗑 Transaksi #"@ + int_decimal(tx_id) + " dihapus."@
    } else {
        "Transaksi #"@ + int_decimal(tx_id) + " gak ketemu 🤔 Cek /riwayat"@
    }
}

/// Renders the reply after a /hapus.
pub fn delete_reply(tx_id: i64, deleted: bool) -> (r: String)
    ensures
        r@ == delete_reply_spec(tx_id as int, deleted),
{
    let id = decimal_string(tx_id);
    let mut out = if deleted {
        String::from_str("🗑 Transaksi #")
    } else {
        String::from_str("Transaksi #")
    };
    out.append(id.as_str());
    if deleted {
        out.append(" dihapus.");
    } else {
        out.append(" gak ketemu 🤔 Cek /riwayat");
    }
    out
}

/// The reply to a message in which no amount could be read.
pub fn not_understood_text() -> (r: String)
    ensures
        r@ == "Hmm, gak nemu nominalnya 🤔 Coba format kayak `15k soto`"@,
{
    String::from_str("Hmm, gak nemu nominalnya 🤔 Coba format kayak `15k soto`")
}

/// How a transaction's kind is stored.
pub fn tx_type(is_income: bool) -> (r: &'static str)
    ensures
        r@ == (if is_income {
            "income"@
        } else {
            "expense"@
        }),
{
    if is_income {
        "income"
    } else {
        "expense"
    }
}

/// The reply after recording income.
pub fn income_recorded_text(amount: i64) -> (r: String)
    ensures
        r@ == "💰 Pemasukan "@ + rupiah(amount as int) + " tercatat!"@,
{
    let mut out = String::from_str("💰 Pemasukan ");
    let a = format_rupiah(amount);
    out.append(a.as_str());
    out.append(" tercatat!");
    out
}

/// The reply after recording an expense, which asks for its category.
pub open spec fn expense_prompt_spec(amount: int, note: Seq<char>) -> Seq<char> {
    "💸 "@ + rupiah(amount) + " — "@ + (if note.len() == 0 {
        "(tanpa catatan)"@
    } else {
        note
    }) + "\nKategorinya apa nih?"@
}

/// Renders the reply after recording an expense.
pub fn expense_prompt_text(amount: i64, note: &str) -> (r: String)
    ensures
        r@ == expense_prompt_spec(amount as int, note@),
{
    let mut out = String::from_str("💸 ");
    let a = format_rupiah(amount);
    out.append(a.as_str());
    out.append(" — ");
    if note.is_empty() {
        out.append("(tanpa catatan)");
    } else {
        out.append(note);
    }
    out.append("\nKategorinya apa nih?");
    out
}

/// What follows once a message is recorded.
#[derive(Debug, Clone, PartialEq, Eq)]
pub enum AfterRecord {
    /// Income: confirm with this text.
    Confirm(String),
    /// An expense: send this prompt with the category keyboard.
    AskCategory(String),
}

/// Decides the reply to a recorded message: income is confirmed, an expense
/// is answered with the prompt for its category.
pub fn after_record(p: &ParsedInput) -> (r: AfterRecord)
    ensures
        match r {
            AfterRecord::Confirm(t) => p.is_income && t@ == "💰 Pemasukan "@ + rupiah(
                p.amount as int,
            ) + " tercatat!"@,
            AfterRecord::AskCategory(t) => !p.is_income && t@ == expense_prompt_spec(
                p.amount as int,
                p.note@,
            ),
        },
{
    if p.is_income {
        AfterRecord::Confirm(income_recorded_text(p.amount))
    } else {
        AfterRecord::AskCategory(expense_prompt_text(p.amount, p.note.as_str()))
    }
}

/// A keyboard button: the text shown and the data sent back when pressed.
#[derive(Debug, Clone, PartialEq, Eq)]
pub struct Button {
    pub label: String,
    pub data: String,
}

impl View for Button {
    type V = (Seq<char>, Seq<char>);

    open spec fn view(&self) -> (Seq<char>, Seq<char>) {
        (self.label@, self.data@)
    }
}

/// The button that files transaction `tx_id` under category `c`.
pub open spec fn category_button(tx_id: int, c: Category) -> (Seq<char>, Seq<char>) {
    (c.emoji@ + " "@ + c.name@, "cat:"@ + int_decimal(tx_id) + ":"@ + int_decimal(c.id as int))
}

/// The button that cancels transaction `tx_id`.
pub open spec fn cancel_button(tx_id: int) -> (Seq<char>, Seq<char>) {
    ("🗑 batal"@, "del:"@ + int_decimal(tx_id))
}

/// The number of category rows for `n` categories, three to a row.
pub open spec fn category_rows(n: int) -> int {
    (n + 2) / 3
}

/// The keyboard offered after an expense: the categories three to a row, in
/// order, then a row with the cancel button.
pub open spec fn keyboard_is(rows: Seq<Seq<(Seq<char>, Seq<char>)>>, tx_id: int, cats: Seq<Category>) -> bool {
    &&& rows.len() == category_rows(cats.len() as int) + 1
    &&& forall|r: int|
        0 <= r < category_rows(cats.len() as int) ==> {
            &&& #[trigger] rows[r].len() == (if cats.len() - 3 * r < 3 {
                cats.len() - 3 * r
            } else {
                3
            })
            &&& forall|c: int|
                0 <= c < rows[r].len() ==> #[trigger] rows[r][c] == category_button(
                    tx_id,
                    cats[3 * r + c],
                )
        }
    &&& rows.last() == seq![cancel_button(tx_id)]
}

/// The view of a keyboard.
pub open spec fn keyboard_view(rows: Seq<Vec<Button>>) -> Seq<Seq<(Seq<char>, Seq<char>)>> {
    rows.map_values(|row: Vec<Button>| row@.map_values(|b: Button| b@))
}

/// The button for category `c`.
fn make_category_button(tx_id: i64, c: &Category) -> (r: Button)
    ensures
        r@ == category_button(tx_id as int, *c),
{
    let mut label = String::from_str(c.emoji.as_str());
    label.append(" ");
    label.append(c.name.as_str());
    let mut data = String::from_str("cat:");
    let t = decimal_string(tx_id);
    data.append(t.as_str());
    data.append(":");
    let i = decimal_string(c.id as i64);
    data.append(i.as_str());
    Button { label, data }
}

/// One row of category buttons: categories `start..end`.
fn category_row(tx_id: i64, cats: &Vec<Category>, start: usize, end: usize) -> (r: Vec<Button>)
    requires
        start <= end <= cats.len(),
    ensures
        r.len() == end - start,
        forall|c: int|
            0 <= c < r.len() ==> #[trigger] r@[c]@ == category_button(
                tx_id as int,
                cats@[start + c],
            ),
{
    let mut row: Vec<Button> = Vec::new();
    let mut j = start;
    while j < end
        invariant
            start <= j <= end <= cats.len(),
            row.len() == j - start,
            forall|c: int|
                0 <= c < row.len() ==> #[trigger] row@[c]@ == category_button(
                    tx_id as int,
                    cats@[start + c],
                ),
        decreases end - j,
    {
        let b = make_category_button(tx_id, &cats[j]);
        row.push(b);
        j = j + 1;
    }
    row
}

/// Builds the keyboard offered after expense `tx_id` is recorded.
pub fn category_keyboard(tx_id: i64, cats: &Vec<Category>) -> (r: Vec<Vec<Button>>)
    ensures
        keyboard_is(keyboard_view(r@), tx_id as int, cats@),
{
    let n = cats.len();
    let nrows = if n % 3 == 0 {
        n / 3
    } else {
        n / 3 + 1
    };
    assert(nrows == category_rows(n as int));
    let mut rows: Vec<Vec<Button>> = Vec::new();
    let mut r: usize = 0;
    while r < nrows
        invariant
            r <= nrows == category_rows(n as int),
            n == cats.len(),
            rows.len() == r,
            forall|k: int|
                0 <= k < rows.len() ==> {
                    &&& #[trigger] rows@[k]@.len() == (if n - 3 * k < 3 {
                        n - 3 * k
                    } else {
                        3
                    })
                    &&& forall|c: int|
                        0 <= c < rows@[k]@.len() ==> #[trigger] rows@[k]@[c]@ == category_button(
                            tx_id as int,
                            cats@[3 * k + c],
                        )
                },
        decreases nrows - r,
    {
        let start = 3 * r;
        let end = if n - start < 3 {
            n
        } else {
            start + 3
        };
        let row = category_row(tx_id, cats, start, end);
        rows.push(row);
        r = r + 1;
    }
    let cancel_label = String::from_str("🗑 batal");
    let mut cancel_data = String::from_str("del:");
    let t = decimal_string(tx_id);
    cancel_data.append(t.as_str());
    let mut last: Vec<Button> = Vec::new();
    last.push(Button { label: cancel_label, data: cancel_data });
    rows.push(last);
    let ghost kv = keyboard_view(rows@);
    assert(kv.last() =~= seq![cancel_button(tx_id as int)]);
    assert forall|k: int| 0 <= k < category_rows(n as int) implies {
        &&& #[trigger] kv[k].len() == (if n - 3 * k < 3 {
            n - 3 * k
        } else {
            3
        })
        &&& forall|c: int|
            0 <= c < kv[k].len() ==> #[trigger] kv[k][c] == category_button(
                tx_id as int,
                cats@[3 * k + c],
            )
    } by {
        assert(kv[k] == rows@[k]@.map_values(|b: Button| b@));
    }
    rows
}


/// What a button press asks for.
#[derive(Debug, Clone, Copy, PartialEq, Eq)]
pub enum CallbackAction {
    /// File the transaction under the category.
    SetCategory { tx_id: i64, category_id: i32 },
    /// Delete the transaction just recorded.
    Cancel { tx_id: i64 },
    /// Data the bot does not know: nothing to do.
    Ignore,
}

/// `s` read as an integer in `lo..=hi`, or 0 where it is not one.
pub open spec fn int_or_zero(s: Seq<char>, lo: int, hi: int) -> int {
    match parse_int(s, true, lo, hi) {
        Some(v) => v,
        None => 0,
    }
}

/// What button data asks for: `cat:<tx>:<category>` files a transaction
/// (a missing or unreadable number counts as 0, and anything after a third
/// ':' is ignored), `del:<tx>` cancels one, and other data is ignored.
pub open spec fn callback_action(data: Seq<char>) -> CallbackAction {
    if starts_with(data, seq!['c', 'a', 't', ':']) {
        let rest = data.skip(4);
        let tx = int_or_zero(before_first(rest, ':'), i64::MIN as int, i64::MAX as int);
        let cat = match after_first(rest, ':') {
            Some(t) => int_or_zero(before_first(t, ':'), i32::MIN as int, i32::MAX as int),
            None => 0,
        };
        CallbackAction::SetCategory { tx_id: tx as i64, category_id: cat as i32 }
    } else if starts_with(data, seq!['d', 'e', 'l', ':']) {
        CallbackAction::Cancel {
            tx_id: int_or_zero(data.skip(4), i64::MIN as int, i64::MAX as int) as i64,
        }
    } else {
        CallbackAction::Ignore
    }
}

/// Whether `v` starts with the four chars `p`.
fn has_prefix4(v: &Vec<char>, p: [char; 4]) -> (r: bool)
    ensures
        r == starts_with(v@, p@),
{
    if v.len() < 4 {
        return false;
    }
    let r = v[0] == p[0] && v[1] == p[1] && v[2] == p[2] && v[3] == p[3];
    assert(r ==> v@.take(4) =~= p@);
    assert(!r ==> v@.take(4) != p@) by {
        if !r {
            if v[0] != p[0] {
                assert(v@.take(4)[0] != p@[0]);
            } else if v[1] != p[1] {
                assert(v@.take(4)[1] != p@[1]);
            } else if v[2] != p[2] {
                assert(v@.take(4)[2] != p@[2]);
            } else {
                assert(v@.take(4)[3] != p@[3]);
            }
        }
    }
    r
}

/// Reads `v[lo..hi]` as an integer in `min..=max`, or 0.
fn read_or_zero(v: &Vec<char>, lo: usize, hi: usize, min: i128, max: i128) -> (r: i128)
    requires
        lo <= hi <= v.len(),
        -0x1_0000_0000_0000_0000 < min <= 0 < max < 0x1_0000_0000_0000_0000,
    ensures
        r == int_or_zero(v@.subrange(lo as int, hi as int), min as int, max as int),
        min <= r <= max,
{
    match parse_int_chars(v, lo, hi, true, min, max) {
        Some(x) => x,
        None => 0,
    }
}

/// Reads the data of a pressed button.
pub fn parse_callback(data: &str) -> (r: CallbackAction)
    ensures
        r == callback_action(data@),
{
    let v = chars_of(data);
    let n = v.len();
    if has_prefix4(&v, ['c', 'a', 't', ':']) {
        assert(['c', 'a', 't', ':']@ =~= seq!['c', 'a', 't', ':']);
        let ghost rest = data@.skip(4);
        assert(rest =~= v@.subrange(4, n as int));
        let (tx_end, cat) = match find_char(&v, 4, n, ':') {
            Some(i) => {
                assert(before_first(rest, ':') =~= v@.subrange(4, i as int));
                assert(after_first(rest, ':') == Some(v@.subrange(i + 1, n as int)));
                let ghost t = v@.subrange(i + 1, n as int);
                let c = match find_char(&v, i + 1, n, ':') {
                    Some(k) => {
                        assert(before_first(t, ':') =~= v@.subrange(i + 1, k as int));
                        read_or_zero(&v, i + 1, k, i32::MIN as i128, i32::MAX as i128)
                    },
                    None => {
                        assert(before_first(t, ':') =~= v@.subrange(i + 1, n as int));
                        read_or_zero(&v, i + 1, n, i32::MIN as i128, i32::MAX as i128)
                    },
                };
                (i, c)
            },
            None => (n, 0),
        };
        let tx = read_or_zero(&v, 4, tx_end, i64::MIN as i128, i64::MAX as i128);
        CallbackAction::SetCategory { tx_id: tx as i64, category_id: cat as i32 }
    } else if has_prefix4(&v, ['d', 'e', 'l', ':']) {
        assert(['d', 'e', 'l', ':']@ =~= seq!['d', 'e', 'l', ':']);
        assert(data@.skip(4) =~= v@.subrange(4, n as int));
        let tx = read_or_zero(&v, 4, n, i64::MIN as i128, i64::MAX as i128);
        CallbackAction::Cancel { tx_id: tx as i64 }
    } else {
        assert(['c', 'a', 't', ':']@ =~= seq!['c', 'a', 't', ':']);
        assert(['d', 'e', 'l', ':']@ =~= seq!['d', 'e', 'l', ':']);
        CallbackAction::Ignore
    }
}

/// The first line of a text, as `str::lines` gives it: up to the first
/// '\n', without a '\r' just before it; empty for an empty text.
pub open spec fn first_line(s: Seq<char>) -> Seq<char> {
    match index_of(s, '\n', 0) {
        Some(i) => if i > 0 && s[i - 1] == '\r' {
            s.take(i - 1)
        } else {
            s.take(i)
        },
        None => s,
    }
}

/// The text that replaces the expense prompt once a category is chosen: the
/// prompt's first line, confirmed.
pub fn confirmation_text(prompt: &str) -> (r: String)
    ensures
        r@ == "✅ "@ + first_line(prompt@) + " — tercatat!"@,
{
    let v = chars_of(prompt);
    let n = v.len();
    assert(v@.subrange(0, n as int) =~= prompt@);
    let end = match find_char(&v, 0, n, '\n') {
        Some(i) => if i > 0 && v[i - 1] == '\r' {
            i - 1
        } else {
            i
        },
        None => n,
    };
    let line = copy_range(&v, 0, end);
    let line_text = crate::text::string_from_chars(&line);
    let mut out = String::from_str("✅ ");
    out.append(line_text.as_str());
    out.append(" — tercatat!");
    assert(line@ =~= first_line(prompt@));
    out
}

/// The text that replaces the expense prompt once it is cancelled.
pub fn cancelled_text() -> (r: String)
    ensures
        r@ == "🗑 Dibatalkan."@,
{
    String::from_str("🗑 Dibatalkan.")
}


/// `c` stands nowhere in a decimal, for `c` neither a digit nor '-'.
proof fn lemma_decimal_lacks(n: int, c: char)
    requires
        !is_digit(c),
        c != '-',
    ensures
        index_of(int_decimal(n), c, 0) is None,
{
    lemma_int_decimal_chars(n);
    assert forall|k: int| 0 <= k < int_decimal(n).len() implies int_decimal(n)[k] != c by {
        assert(is_digit(int_decimal(n)[k]) || int_decimal(n)[k] == '-');
    }
    lemma_lacks(int_decimal(n), c, 0);
}

/// Pressing a category button files that very transaction under that very
/// category: the handler reads back the transaction number and the category
/// id that the keyboard wrote.
pub proof fn law_category_button_reads_back(tx_id: i64, c: Category)
    ensures
        callback_action(category_button(tx_id as int, c).1) == (CallbackAction::SetCategory {
            tx_id: tx_id,
            category_id: c.id,
        }),
{
    reveal_strlit("cat:");
    reveal_strlit(":");
    let dt = int_decimal(tx_id as int);
    let dc = int_decimal(c.id as int);
    let data = category_button(tx_id as int, c).1;
    assert(data =~= seq!['c', 'a', 't', ':'] + (dt + seq![':'] + dc));
    assert(data.take(4) =~= seq!['c', 'a', 't', ':']);
    let rest = data.skip(4);
    assert(rest =~= dt + seq![':'] + dc);
    lemma_decimal_lacks(tx_id as int, ':');
    lemma_decimal_lacks(c.id as int, ':');
    lemma_index_after(dt, dc, ':');
    assert(before_first(rest, ':') =~= dt);
    assert(rest.skip(dt.len() + 1 as int) =~= dc);
    assert(after_first(rest, ':') == Some(dc));
    assert(before_first(dc, ':') == dc);
    lemma_int_decimal_parses(tx_id as int);
    lemma_int_decimal_parses(c.id as int);
}

/// Pressing the cancel button cancels that very transaction.
pub proof fn law_cancel_button_reads_back(tx_id: i64)
    ensures
        callback_action(cancel_button(tx_id as int).1) == (CallbackAction::Cancel { tx_id: tx_id }),
{
    reveal_strlit("del:");
    let dt = int_decimal(tx_id as int);
    let data = cancel_button(tx_id as int).1;
    assert(data =~= seq!['d', 'e', 'l', ':'] + dt);
    assert(data.take(4) =~= seq!['d', 'e', 'l', ':']);
    assert(!starts_with(data, seq!['c', 'a', 't', ':'])) by {
        assert(data.take(4)[0] != seq!['c', 'a', 't', ':'][0]);
    }
    assert(data.skip(4) =~= dt);
    lemma_int_decimal_parses(tx_id as int);
}

/// The number that /riwayat shows for a transaction ("#12"), given to
/// /hapus with or without its '#', names that transaction.
pub proof fn law_history_number_reads_back(tx_id: i64)
    ensures
        tx_ref_spec(seq!['#'] + int_decimal(tx_id as int)) == Some(tx_id as int),
        tx_ref_spec(int_decimal(tx_id as int)) == Some(tx_id as int),
{
    let d = int_decimal(tx_id as int);
    lemma_int_decimal_chars(tx_id as int);
    lemma_int_decimal_parses(tx_id as int);
    assert(is_digit(d[0]) || d[0] == '-');
    assert(is_digit(d.last()) || d.last() == '-');
    lemma_trim_noop(d);
    let h = seq!['#'] + d;
    assert(h[0] == '#');
    assert(h.last() == d.last());
    lemma_trim_noop(h);
    assert(h.drop_first() =~= d);
    assert(strip_leading(d, '#') == d);
    assert(strip_leading(h, '#') == strip_leading(d, '#'));
}


/// What reaches the bot from Telegram, with the sender's user id.
#[derive(Debug, Clone, PartialEq, Eq)]
pub enum Incoming {
    /// A command.
    Command { from: Option<u64>, command: Command },
    /// Any other message, with its text where it has one.
    Message { from: Option<u64>, text: Option<String> },
    /// A pressed keyboard button, with its data where it has some.
    ButtonPress { from: u64, data: Option<String> },
}

/// What the bot does about what reached it.
#[derive(Debug, PartialEq)]
pub enum BotAction {
    /// Nothing: no reply, no change.
    Ignore,
    /// Carry out this command step.
    Command(CommandStep),
    /// Reply with this text and record nothing.
    Reply(String),
    /// Record this transaction, then reply as `after_record` says.
    Record(ParsedInput),
    /// Act on a pressed button.
    Button(CallbackAction),
}

/// The sender of what reached the bot.
pub open spec fn sender(ev: Incoming) -> Option<u64> {
    match ev {
        Incoming::Command { from, .. } => from,
        Incoming::Message { from, .. } => from,
        Incoming::ButtonPress { from, .. } => Some(from),
    }
}

/// Decides what the bot does. Only the owner is served: for anybody else
/// nothing is replied and nothing is recorded. A command gives its step; a
/// text is recorded where an amount can be read in it and answered with a
/// hint where not; a button press gives what its data asks for.
pub fn handle(owner_id: i64, ev: &Incoming) -> (r: BotAction)
    ensures
        !(sender(*ev) matches Some(u) && u as i64 == owner_id) ==> r is Ignore,
        (sender(*ev) matches Some(u) && u as i64 == owner_id) ==> match *ev {
            Incoming::Command { command, .. } => r matches BotAction::Command(step)
                && command_step_is(command, step),
            Incoming::Message { text: None, .. } => r is Ignore,
            Incoming::Message { text: Some(t), .. } => match parse_spec(t@) {
                Some(v) => r matches BotAction::Record(p) && p@ == v,
                None => r matches BotAction::Reply(x)
                    && x@ == "Hmm, gak nemu nominalnya 🤔 Coba format kayak `15k soto`"@,
            },
            Incoming::ButtonPress { data: None, .. } => r is Ignore,
            Incoming::ButtonPress { data: Some(d), .. } => r == BotAction::Button(
                callback_action(d@),
            ),
        },
{
    let from = match ev {
        Incoming::Command { from, .. } => *from,
        Incoming::Message { from, .. } => *from,
        Incoming::ButtonPress { from, .. } => Some(*from),
    };
    if !is_owner(owner_id, from) {
        return BotAction::Ignore;
    }
    match ev {
        Incoming::Command { command, .. } => BotAction::Command(command_step(command)),
        Incoming::Message { text, .. } => match text {
            None => BotAction::Ignore,
            Some(t) => match parse(t.as_str()) {
                Some(p) => BotAction::Record(p),
                None => BotAction::Reply(not_understood_text()),
            },
        },
        Incoming::ButtonPress { data, .. } => match data {
            None => BotAction::Ignore,
            Some(d) => BotAction::Button(parse_callback(d.as_str())),
        },
    }
}

} // verus!
