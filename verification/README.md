# battery_core

The data layer of a battery monitor for Linux laptops, written and proved in Verus:
readings of the battery, alerts, history, reports, other devices, and the controls of
the machine.

* `src/` is the library. It does no input or output: each function takes what was read
  or what a command gave back, and its contract says exactly what follows from it.
  Numbers are binary floating point held by their bits (`double`), with arithmetic,
  reading and writing proved against exact whole numbers (`natural`, `decimal`).
  What holds across functions is stated and proved in the functions named `law_…`.
* `tests/` runs the library, among others against the machine's own floating point, the
  standard library's text functions and a real SQLite database.
* `app/` is the program: files, commands, the database connection, the clock, the
  settings file, and the desktop shell (Tauri).

## What is taken on trust

Six items, each with a doc comment that says what is claimed of it:

* `text`: `String::push`, `str::to_lowercase` and `String::from_utf8_lossy` of the
  standard library;
* `processes`: two searches with the `regex` crate;
* `history`: reading a time with the `chrono` crate.

Four names stand for results that take too long to state. To name a result is to claim
that it depends on what is in the brackets and on nothing else:

* `text::unicode_lowercase(text)` and `text::lossy(bytes)`: the lower case of a text, and
  the text of bytes;
* `processes::foreign_digit(character)`: whether `\d` matches a character beyond ASCII;
* `history::seconds_in(text, format)`: the time that a text gives.

## Conventions

A value that is not known is missing or shown as a dash; none is made up. Paths are the
bytes that the system knows them by. Times are handed in; the library asks no clock.
