# session_scheduler

A Discord bot that collects weekly availabilities of the players of a tabletop
RPG group, finds the stretches of the next Monday-to-Sunday week in which
everyone is free, and lets an admin fix a session in one of them. Times are
read and shown in Europe/Rome.

## Layout

- `src/` is the library, verified with Verus:
  - `time.rs`: clock times, the overnight rule, the next occurrence of a
    weekday, the planning week, the instances of saved availabilities in it,
    and the Italian texts of dates and intervals;
  - `overlap.rs`: the full-overlap search over the instances of the week;
  - `commands.rs`: the decisions and replies of the `/ss` commands;
  - `db.rs`: the rows the store writes and how it reads them back;
  - `zone.rs`: what is taken from chrono and chrono-tz (trusted wrappers);
  - `text.rs`, `ids.rs`, `permissions.rs`, `config.rs`, `error.rs`,
    `models.rs`: text helpers, identifiers, the admin rule, settings, errors
    and records.
- `tests/` runs the library on concrete values.
- `app/` is the bot itself: poise commands, the SQLite store and `main`. It
  asks the library for every decision and every text it sends.
