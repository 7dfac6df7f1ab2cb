use keuangan_bot::db::{stored_note, totals_or_zero};

#[test]
fn notes_stored() {
    assert_eq!(stored_note(""), None);
    assert_eq!(stored_note("soto"), Some("soto".to_string()));
}

#[test]
fn totals_default_to_zero() {
    assert_eq!(totals_or_zero(None, None), (0, 0));
    assert_eq!(totals_or_zero(Some(5), None), (5, 0));
    assert_eq!(totals_or_zero(None, Some(7)), (0, 7));
}
