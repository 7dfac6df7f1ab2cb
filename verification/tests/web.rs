use keuangan_bot::web::{month_label, month_range, parse_month_param};

#[test]
fn month_params() {
    assert_eq!(parse_month_param("2024-05"), Some((2024, 5)));
    assert_eq!(parse_month_param("2024-+5"), Some((2024, 5)));
    assert_eq!(parse_month_param("2024"), None);
    assert_eq!(parse_month_param("-2024-05"), None);
    assert_eq!(parse_month_param("2024--5"), None);
}

#[test]
fn labels() {
    assert_eq!(month_label(2024, 5), "2024-05");
    assert_eq!(month_label(5, 12), "0005-12");
    assert_eq!(month_label(-5, 1), "-005-01");
    assert_eq!(month_label(12345, 1), "12345-01");
}

#[test]
fn dashboard_months() {
    assert_eq!(
        month_range(Some("2024-05"), 0),
        Some((1_714_496_400, 1_717_174_800, "2024-05".to_string()))
    );
    assert_eq!(month_range(Some("2024-13"), 0), None);
    assert_eq!(month_range(Some("2024-0"), 0), None);
    assert_eq!(month_range(Some("mei"), 0), None);
    assert_eq!(month_range(Some("300000-01"), 0), None);
    assert_eq!(
        month_range(None, 1_700_000_000),
        Some((1_698_771_600, 1_701_363_600, "2023-11".to_string()))
    );
}

#[test]
fn law_month_label_reads_back_example() {
    let label = month_label(2024, 12);
    assert_eq!(parse_month_param(&label), Some((2024, 12)));
}
