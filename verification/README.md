# hoglet

Product analytics in one binary, with its core verified in [Verus](https://github.com/verus-lang/verus).

- `src/` is the library: decoding and parsing of capture requests, the write-ahead log, identity,
  feature flags, cohorts, catalogs, dashboards, accounts and projects, the versioned event lake,
  publication, and the offline migration. Every function states what it does in `requires` and
  `ensures`, and the properties that span functions are proof functions named `law_..`. The stores are
  tables of rows in memory.
- `app/` is the program around it: SQLite, files, HTTP, the clock and DuckDB.
- `tests/` runs the library with the real crates that it calls.

What the library takes from outside crates stands in small wrappers marked `external_body`; the comment
above each says what is believed of the call.

Percentages are held as the bits of the floating-point number that was given; the part of a variant also
has the end of its range. Instants are nanoseconds since the epoch, days are counted from the year one,
and UUIDs are 128-bit numbers.
