use keuangan_bot::parser::{format_rupiah, parse};

#[test]
fn parse_basic() {
    let p = parse("15k soto").unwrap();
    assert_eq!(p.amount, 15_000);
    assert_eq!(p.note, "soto");
    assert!(!p.is_income);
}

#[test]
fn parse_suffix_variants() {
    assert_eq!(parse("20rb bensin").unwrap().amount, 20_000);
    assert_eq!(parse("1.5jt kos").unwrap().amount, 1_500_000);
    assert_eq!(parse("kopi 15000").unwrap().amount, 15_000);
    assert_eq!(parse("15.000 nasi goreng").unwrap().amount, 15_000);
}

#[test]
fn parse_income() {
    let p = parse("+5jt gaji").unwrap();
    assert_eq!(p.amount, 5_000_000);
    assert!(p.is_income);
}

#[test]
fn parse_note_position() {
    let p = parse("makan siang 25k warteg").unwrap();
    assert_eq!(p.amount, 25_000);
    assert_eq!(p.note, "makan siang warteg");
}

#[test]
fn format_ok() {
    assert_eq!(format_rupiah(1_500_000), "Rp1.500.000");
    assert_eq!(format_rupiah(500), "Rp500");
}

#[test]
fn parse_no_digit_is_none() {
    assert!(parse("makan siang").is_none());
    assert!(parse("").is_none());
    assert!(parse("   ").is_none());
}

#[test]
fn parse_zero_is_none() {
    assert!(parse("0k kopi").is_none());
    assert!(parse("+0 gaji").is_none());
}

#[test]
fn parse_all_suffixes() {
    assert_eq!(parse("15k").unwrap().amount, 15_000);
    assert_eq!(parse("15rb").unwrap().amount, 15_000);
    assert_eq!(parse("15ribu").unwrap().amount, 15_000);
    assert_eq!(parse("2jt").unwrap().amount, 2_000_000);
    assert_eq!(parse("2juta").unwrap().amount, 2_000_000);
    assert_eq!(parse("2m").unwrap().amount, 2_000_000);
    assert_eq!(parse("15K").unwrap().amount, 15_000);
    assert_eq!(parse("2JT").unwrap().amount, 2_000_000);
    assert_eq!(parse("3\u{212A}").unwrap().amount, 3_000);
}

#[test]
fn parse_suffix_after_space() {
    let p = parse("15 rb bensin").unwrap();
    assert_eq!(p.amount, 15_000);
    assert_eq!(p.note, "bensin");
    // A suffix is a word of its own: the "k" of "kopi" is no suffix.
    let q = parse("15 kopi").unwrap();
    assert_eq!(q.amount, 15);
    assert_eq!(q.note, "kopi");
    let r = parse("15.000 kopi").unwrap();
    assert_eq!(r.amount, 15_000);
    assert_eq!(r.note, "kopi");
    let m = parse("15 mie").unwrap();
    assert_eq!(m.amount, 15);
    assert_eq!(m.note, "mie");
    let j = parse("2 jtx").unwrap();
    assert_eq!(j.amount, 2);
    assert_eq!(parse("20rb, bensin").unwrap().amount, 20_000);
    assert_eq!(parse("5k\u{E9}").unwrap().amount, 5);
}

#[test]
fn parse_comma_and_rounding() {
    assert_eq!(parse("1,5juta kos").unwrap().amount, 1_500_000);
    assert_eq!(parse("1,5 kos").unwrap().amount, 15);
    assert_eq!(parse("1,5 nasi").unwrap().amount, 15);
    assert_eq!(parse("2.25k").unwrap().amount, 2_250);
    assert_eq!(parse("1.0005k").unwrap().amount, 1_001);
    assert_eq!(parse("1.0004k").unwrap().amount, 1_000);
    assert_eq!(parse("1.23456789jt").unwrap().amount, 1_234_568);
}

#[test]
fn parse_only_first_group_is_read() {
    let p = parse("1.500.000 motor").unwrap();
    assert_eq!(p.amount, 1_500);
    assert_eq!(p.note, ".000 motor");
}

#[test]
fn parse_trims_and_joins_note() {
    let p = parse("  makan   25k   warteg  ").unwrap();
    assert_eq!(p.note, "makan warteg");
    let q = parse("25k").unwrap();
    assert_eq!(q.note, "");
    let r = parse("nasi 25k").unwrap();
    assert_eq!(r.note, "nasi");
}

#[test]
fn parse_income_marks() {
    let p = parse("  + 5jt gaji ").unwrap();
    assert!(p.is_income);
    assert_eq!(p.amount, 5_000_000);
    assert_eq!(p.note, "gaji");
    let q = parse("gaji +5jt").unwrap();
    assert!(!q.is_income);
    assert_eq!(q.note, "gaji +");
}

#[test]
fn parse_caps_huge_amounts() {
    assert_eq!(parse("99999999999999999999999").unwrap().amount, i64::MAX);
    assert_eq!(parse("9999999999999jt").unwrap().amount, i64::MAX);
}

#[test]
fn law_plus_marks_income_example() {
    let plain = parse("makan 25k").unwrap();
    let plus = parse("+makan 25k").unwrap();
    assert_eq!(plain.amount, plus.amount);
    assert_eq!(plain.note, plus.note);
    assert!(!plain.is_income);
    assert!(plus.is_income);
}

#[test]
fn format_small_and_negative() {
    assert_eq!(format_rupiah(0), "Rp0");
    assert_eq!(format_rupiah(1_000), "Rp1.000");
    assert_eq!(format_rupiah(999), "Rp999");
    assert_eq!(format_rupiah(-1_500), "Rp-1.500");
    assert_eq!(format_rupiah(-500_000), "Rp-.500.000");
    assert_eq!(format_rupiah(i64::MAX), "Rp9.223.372.036.854.775.807");
    assert_eq!(format_rupiah(i64::MIN), "Rp-9.223.372.036.854.775.808");
}

#[test]
fn law_rupiah_keeps_digits_example() {
    let s = format_rupiah(123_456_789);
    assert_eq!(s.trim_start_matches("Rp").replace('.', ""), "123456789");
}

#[test]
fn law_rupiah_reads_back_example() {
    for n in [1i64, 7, 500, 15_000, 123_456, 999_999] {
        let p = parse(&format_rupiah(n)).unwrap();
        assert_eq!(p.amount, n);
        assert_eq!(p.note, "Rp");
        assert!(!p.is_income);
    }
    // From a million on, only the first dot group is read back.
    assert_eq!(parse(&format_rupiah(1_500_000)).unwrap().amount, 1_500);
}

#[test]
fn parse_non_ascii_digits_stop_the_reading() {
    // The first decimal digit starts the number; a number with a decimal
    // digit other than 0-9 does not read.
    assert!(parse("\u{663} 15k soto").is_none());
    assert!(parse("15\u{663}k").is_none());
    assert!(parse("\u{FF11}\u{FF15}k").is_none());
    assert!(parse("1.\u{663}k").is_none());
    // Other numeric chars are just text.
    let p = parse("\u{BD} 15k soto").unwrap();
    assert_eq!(p.amount, 15_000);
    assert_eq!(p.note, "\u{BD} soto");
}

#[test]
fn law_amount_anywhere_example() {
    let alone = parse("25k warteg").unwrap();
    let inside = parse("makan siang 25k warteg").unwrap();
    assert_eq!(alone.amount, inside.amount);
    assert!(parse("makan siang warteg").is_none());
}
