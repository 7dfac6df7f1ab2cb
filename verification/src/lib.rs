//! Personal bookkeeping bot: the verified core.
//!
//! The library holds what the bot and its dashboard decide and compute:
//! reading free-form amounts ("15k soto"), rendering Rupiah, building the
//! reply texts and reports, and the month and day ranges in Jakarta time.
//! Talking to Telegram, the database and the web server stays outside.

pub mod bot;
pub mod clock;
pub mod db;
pub mod parser;
pub mod report;
pub mod session;
pub mod text;
pub mod web;

