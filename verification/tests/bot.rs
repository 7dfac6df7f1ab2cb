use keuangan_bot::bot::{
    cancelled_text, category_keyboard, command_step, confirmation_text, delete_reply,
    expense_prompt_text, history_text, income_recorded_text, is_owner, not_understood_text,
    parse_callback, parse_tx_ref, tx_type, after_record, handle, AfterRecord, BotAction,
    CallbackAction, Command, CommandStep, Incoming,
};
use keuangan_bot::parser::parse;
use keuangan_bot::db::{Category, TxRow};

#[test]
fn owner_only() {
    assert!(is_owner(42, Some(42)));
    assert!(!is_owner(42, Some(7)));
    assert!(!is_owner(42, None));
    assert!(is_owner(-1, Some(u64::MAX)));
}

#[test]
fn commands_decide() {
    match command_step(&Command::Start) {
        CommandStep::Reply(t) => assert!(t.starts_with("Halo! Aku pencatat keuanganmu")),
        _ => panic!("start replies"),
    }
    assert_eq!(command_step(&Command::Hariini), CommandStep::TodayReport);
    assert_eq!(command_step(&Command::Bulanini), CommandStep::MonthReport);
    assert_eq!(command_step(&Command::Riwayat), CommandStep::RecentTransactions(5));
    assert_eq!(command_step(&Command::Hapus(" #12 ".to_string())), CommandStep::DeleteTransaction(12));
    assert_eq!(
        command_step(&Command::Hapus("dua".to_string())),
        CommandStep::Reply("Formatnya: `/hapus 2` (angka dari /riwayat)".to_string())
    );
}

#[test]
fn tx_refs() {
    assert_eq!(parse_tx_ref("2"), Some(2));
    assert_eq!(parse_tx_ref("  ##7 "), Some(7));
    assert_eq!(parse_tx_ref("+3"), Some(3));
    assert_eq!(parse_tx_ref("-3"), Some(-3));
    assert_eq!(parse_tx_ref(""), None);
    assert_eq!(parse_tx_ref("#"), None);
    assert_eq!(parse_tx_ref("2a"), None);
    assert_eq!(parse_tx_ref("9223372036854775808"), None);
    assert_eq!(parse_tx_ref("-9223372036854775808"), Some(i64::MIN));
}

#[test]
fn history_texts() {
    assert_eq!(history_text(&vec![]), "Belum ada transaksi.");
    let txs = vec![
        TxRow { id: 3, amount: 15_000, note: Some("soto".to_string()), category: Some("makan".to_string()) },
        TxRow { id: 2, amount: 5_000_000, note: None, category: None },
    ];
    assert_eq!(
        history_text(&txs),
        "🕐 *Transaksi terakhir:*\n\n`#3` Rp15.000 — soto (makan)\n`#2` Rp5.000.000 — - (?)\n"
    );
}

#[test]
fn delete_replies() {
    assert_eq!(delete_reply(2, true), "🗑 Transaksi #2 dihapus.");
    assert_eq!(delete_reply(9, false), "Transaksi #9 gak ketemu 🤔 Cek /riwayat");
}

#[test]
fn message_replies() {
    assert_eq!(not_understood_text(), "Hmm, gak nemu nominalnya 🤔 Coba format kayak `15k soto`");
    assert_eq!(tx_type(true), "income");
    assert_eq!(tx_type(false), "expense");
    assert_eq!(income_recorded_text(5_000_000), "💰 Pemasukan Rp5.000.000 tercatat!");
    assert_eq!(expense_prompt_text(15_000, "soto"), "💸 Rp15.000 — soto\nKategorinya apa nih?");
    assert_eq!(expense_prompt_text(15_000, ""), "💸 Rp15.000 — (tanpa catatan)\nKategorinya apa nih?");
    assert_eq!(cancelled_text(), "🗑 Dibatalkan.");
}

fn cats(n: i32) -> Vec<Category> {
    (1..=n)
        .map(|i| Category { id: i, name: format!("c{}", i), emoji: "•".to_string() })
        .collect()
}

#[test]
fn keyboard_layout() {
    let kb = category_keyboard(77, &cats(4));
    assert_eq!(kb.len(), 3);
    assert_eq!(kb[0].len(), 3);
    assert_eq!(kb[1].len(), 1);
    assert_eq!(kb[0][0].label, "• c1");
    assert_eq!(kb[0][0].data, "cat:77:1");
    assert_eq!(kb[1][0].data, "cat:77:4");
    assert_eq!(kb[2].len(), 1);
    assert_eq!(kb[2][0].label, "🗑 batal");
    assert_eq!(kb[2][0].data, "del:77");
    let empty = category_keyboard(5, &vec![]);
    assert_eq!(empty.len(), 1);
    let six = category_keyboard(5, &cats(6));
    assert_eq!(six.len(), 3);
    assert_eq!(six[1][2].data, "cat:5:6");
}

#[test]
fn callbacks_read() {
    assert_eq!(parse_callback("cat:12:3"), CallbackAction::SetCategory { tx_id: 12, category_id: 3 });
    assert_eq!(parse_callback("cat:12"), CallbackAction::SetCategory { tx_id: 12, category_id: 0 });
    assert_eq!(parse_callback("cat:x:3"), CallbackAction::SetCategory { tx_id: 0, category_id: 3 });
    assert_eq!(parse_callback("cat:1:2:3"), CallbackAction::SetCategory { tx_id: 1, category_id: 2 });
    assert_eq!(parse_callback("cat:1:9999999999"), CallbackAction::SetCategory { tx_id: 1, category_id: 0 });
    assert_eq!(parse_callback("del:8"), CallbackAction::Cancel { tx_id: 8 });
    assert_eq!(parse_callback("del:"), CallbackAction::Cancel { tx_id: 0 });
    assert_eq!(parse_callback("other"), CallbackAction::Ignore);
    assert_eq!(parse_callback("ca"), CallbackAction::Ignore);
}

#[test]
fn law_buttons_read_back_example() {
    for row in category_keyboard(-4, &cats(5)) {
        for b in row {
            match parse_callback(&b.data) {
                CallbackAction::SetCategory { tx_id, category_id } => {
                    assert_eq!(tx_id, -4);
                    assert_eq!(b.data, format!("cat:-4:{}", category_id));
                }
                CallbackAction::Cancel { tx_id } => assert_eq!(tx_id, -4),
                CallbackAction::Ignore => panic!("every button is understood"),
            }
        }
    }
}

#[test]
fn law_history_number_reads_back_example() {
    assert_eq!(parse_tx_ref("#31"), Some(31));
    assert_eq!(parse_tx_ref(&format!("#{}", i64::MAX)), Some(i64::MAX));
}

#[test]
fn confirmations() {
    assert_eq!(
        confirmation_text("💸 Rp15.000 — soto\nKategorinya apa nih?"),
        "✅ 💸 Rp15.000 — soto — tercatat!"
    );
    assert_eq!(confirmation_text("a\r\nb"), "✅ a — tercatat!");
    assert_eq!(confirmation_text("a\r"), "✅ a\r — tercatat!");
    assert_eq!(confirmation_text(""), "✅  — tercatat!");
}

#[test]
fn replies_after_recording() {
    assert_eq!(
        after_record(&parse("+5jt gaji").unwrap()),
        AfterRecord::Confirm("💰 Pemasukan Rp5.000.000 tercatat!".to_string())
    );
    assert_eq!(
        after_record(&parse("15k soto").unwrap()),
        AfterRecord::AskCategory("💸 Rp15.000 — soto\nKategorinya apa nih?".to_string())
    );
}

#[test]
fn strangers_are_ignored() {
    let text = Incoming::Message { from: Some(7), text: Some("15k soto".to_string()) };
    assert_eq!(handle(42, &text), BotAction::Ignore);
    let anonymous = Incoming::Message { from: None, text: Some("15k soto".to_string()) };
    assert_eq!(handle(42, &anonymous), BotAction::Ignore);
    let command = Incoming::Command { from: Some(7), command: Command::Hapus("3".to_string()) };
    assert_eq!(handle(42, &command), BotAction::Ignore);
    let button = Incoming::ButtonPress { from: 7, data: Some("del:8".to_string()) };
    assert_eq!(handle(42, &button), BotAction::Ignore);
}

#[test]
fn owner_is_served() {
    let text = Incoming::Message { from: Some(42), text: Some("15k soto".to_string()) };
    assert_eq!(handle(42, &text), BotAction::Record(parse("15k soto").unwrap()));
    match handle(42, &text) {
        BotAction::Record(p) => {
            assert_eq!(p.amount, 15000);
            assert_eq!(p.note, "soto");
            assert!(!p.is_income);
        }
        other => panic!("unexpected {:?}", other),
    }
    let vague = Incoming::Message { from: Some(42), text: Some("makan".to_string()) };
    assert_eq!(handle(42, &vague), BotAction::Reply(not_understood_text()));
    let sticker = Incoming::Message { from: Some(42), text: None };
    assert_eq!(handle(42, &sticker), BotAction::Ignore);
    let command = Incoming::Command { from: Some(42), command: Command::Hapus("#3".to_string()) };
    assert_eq!(handle(42, &command), BotAction::Command(CommandStep::DeleteTransaction(3)));
    let today = Incoming::Command { from: Some(42), command: Command::Hariini };
    assert_eq!(handle(42, &today), BotAction::Command(CommandStep::TodayReport));
    let button = Incoming::ButtonPress { from: 42, data: Some("del:8".to_string()) };
    assert_eq!(handle(42, &button), BotAction::Button(CallbackAction::Cancel { tx_id: 8 }));
    let filed = Incoming::ButtonPress { from: 42, data: Some("cat:8:3".to_string()) };
    assert_eq!(
        handle(42, &filed),
        BotAction::Button(CallbackAction::SetCategory { tx_id: 8, category_id: 3 })
    );
    let empty = Incoming::ButtonPress { from: 42, data: None };
    assert_eq!(handle(42, &empty), BotAction::Ignore);
}
