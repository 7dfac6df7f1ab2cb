//! The rows that the database hands the bot and the dashboard.

use vstd::prelude::*;

verus! {

/// A spending category, as offered on the keyboard.
#[derive(Debug, Clone)]
pub struct Category {
    pub id: i32,
    pub name: String,
    pub emoji: String,
}

/// The total spent in one category over a period.
#[derive(Debug, Clone)]
pub struct CategorySum {
    pub name: String,
    pub emoji: String,
    pub total: i64,
}

/// A recorded transaction, with its category name where it has one.
#[derive(Debug, Clone)]
pub struct TxRow {
    pub id: i64,
    pub amount: i64,
    pub note: Option<String>,
    pub category: Option<String>,
}


/// The note as it is stored: an empty note is stored as no note.
pub fn stored_note(note: &str) -> (r: Option<String>)
    ensures
        match r {
            Some(n) => note@.len() > 0 && n@ == note@,
            None => note@.len() == 0,
        },
{
    if note.is_empty() {
        None
    } else {
        Some(String::from_str(note))
    }
}

/// The income and expense totals of a period; a period with no rows of a
/// kind totals 0.
pub fn totals_or_zero(income: Option<i64>, expense: Option<i64>) -> (r: (i64, i64))
    ensures
        r.0 == (match income {
            Some(x) => x,
            None => 0,
        }),
        r.1 == (match expense {
            Some(x) => x,
            None => 0,
        }),
{
    let i = match income {
        Some(x) => x,
        None => 0,
    };
    let e = match expense {
        Some(x) => x,
        None => 0,
    };
    (i, e)
}

} // verus!
