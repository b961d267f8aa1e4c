# bandmeter

A per-program network bandwidth monitor. A kernel probe reports every completed
socket send and receive; a daemon tallies the bytes per program and peer and writes
the tally to an SQLite database once a minute; a viewer charts the recorded traffic
of an hour, a day, a week or a month and ranks the programs by their totals.

- `src/` is the verified library (Verus): the probe's decision (`common`), the
  daemon's tally and its flush (`stats`, `record`), the text of peer addresses
  (`addr`), periods and their bars (`period`), the chart's bars, totals and
  ranking (`chart`), byte counts and labels as text (`units`, `label`, `text`),
  and the hour picker's dial (`picker`). Calendar arithmetic and the local time
  zone come from chrono, behind trusted wrappers whose contracts say what they
  claim of it.
- `app/` is the program around it: the daemon's eBPF loading, event reading and
  database writes (aya, tokio, rusqlite), and the viewer's window (gpui).
- `tests/` runs the library on concrete values.
