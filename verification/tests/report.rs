use keuangan_bot::db::CategorySum;
use keuangan_bot::report::{month_range, render_report, today_range};

#[test]
fn today_range_jakarta() {
    // 2023-11-15 05:13:20 in Jakarta.
    assert_eq!(today_range(1_700_000_000), Some((1_699_981_200, 1_700_067_600)));
}

#[test]
fn month_range_jakarta() {
    assert_eq!(month_range(1_700_000_000), Some((1_698_771_600, 1_701_363_600)));
    // December rolls over into January of the next year.
    assert_eq!(month_range(1_733_000_000), Some((1_732_986_000, 1_735_664_400)));
}

#[test]
fn report_without_spending() {
    let r = render_report("Hari Ini", &vec![], 0, 0);
    assert_eq!(
        r,
        "📊 *Hari Ini*\n\nBelum ada pengeluaran. Dompet aman... untuk sekarang 😌\n💸 Total keluar: Rp0\n"
    );
}

#[test]
fn report_with_categories_and_income() {
    let sums = vec![
        CategorySum { name: "makan".to_string(), emoji: "🍜".to_string(), total: 40_000 },
        CategorySum { name: "transport".to_string(), emoji: "🛵".to_string(), total: 15_000 },
    ];
    let r = render_report("Bulan Ini", &sums, 5_000_000, 55_000);
    assert_eq!(
        r,
        "📊 *Bulan Ini*\n\n🍜 makan — Rp40.000\n🛵 transport — Rp15.000\n\n💸 Total keluar: Rp55.000\n💰 Total masuk: Rp5.000.000\n✅ Selisih: Rp4.945.000\n"
    );
}

#[test]
fn report_overspent() {
    let sums = vec![CategorySum { name: "kos".to_string(), emoji: "🏠".to_string(), total: 2_000_000 }];
    let r = render_report("Bulan Ini", &sums, 1_000_000, 2_000_000);
    assert!(r.ends_with("💰 Total masuk: Rp1.000.000\n🔻 Selisih: Rp1.000.000\n"));
}
