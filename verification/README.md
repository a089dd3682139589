# ptacek

The verified core of a macOS menu-bar app that flies a mascot across the
screen a few minutes before each meeting.

- `src/` — the library, verified with Verus:
  - `text.rs` — character helpers (trimming, searching, decimal text).
  - `calendar.rs` — events, title cleaning and tidying, sorting by start.
  - `eventkit.rs` — what is read from the system calendar store and which
    events become flybys.
  - `ics.rs` — the iCal feed: fields, starts, recurrence expansion, limits.
  - `feed_url.rs` — which feed addresses may be stored and fetched.
  - `scheduler.rs`, `scheduler_laws.rs` — the flyby queue and its rebuild
    after each poll, with the laws it keeps.
  - `tick.rs` — poll timing, fired keys, the next due flyby, the last check
    before a flyby, one tick's search for a flyby, the overlay query.
  - `loop_laws.rs` — the scheduler loop as a run of steps, and the laws
    every run keeps.
  - `service.rs` — the calendar service's health, reset budget and verdicts.
  - `window.rs`, `overlay_laws.rs` — reading the overlay query back.
  - `tray.rs`, `conf.rs`, `cmd.rs` — tray menu, settings and commands.
- `tests/` — tests of the library, run with the real outside crates.
- `app/` — the Tauri application around the library: windows, tray,
  EventKit through objc2, network, Keychain, files.
