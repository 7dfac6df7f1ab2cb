# keuangan_bot

A personal bookkeeping bot for Telegram ("15k soto" records an expense of
Rp15.000 with the note "soto"), with a read-only web dashboard.

- `src/` is the verified library (Verus): reading amount messages
  (`parser`), the bot's decisions and replies (`bot`), the reports
  (`report`), the dashboard's month selection (`web`) and its password login
  and signed session cookie (`session`), the
  database rows (`db`), Jakarta calendar time through `chrono`/`chrono-tz`
  (`clock`), and character-level helpers (`text`).
- `app/` is the program around it: Telegram (teloxide), PostgreSQL (sqlx),
  the HTTP server (axum).
- `tests/` runs the library on concrete inputs.
