# timezone_data

Direct access to IANA timezone data — transitions, zone types, POSIX `TZ`
rules, leap seconds and per-zone metadata — as a library verified with Verus.

The zone database is the compiled TZif data that the `jiff-tzdb` crate
embeds; a zone is found by name and its TZif bytes are parsed on load.

## Layout

- `src/lib.rs` — `load`, `load_insensitive`, `names`.
- `src/db.rs` — the embedded database: exact-name lookup and the sorted list
  of names (the calls into `jiff-tzdb` are the only trusted items here).
- `src/tzif.rs` — the TZif parser, `Zone`, lookups and `transitions_for_range`.
- `src/posix.rs` — POSIX `TZ` rules: parser, evaluation, formatting.
- `src/posix_format.rs` — formatting a parsed rule and parsing it again gives
  the same rule.
- `src/chronology.rs` — range transitions come out in order and agree with
  lookups.
- `src/codegen.rs` — writes the Rust source of a static table of pre-parsed
  zones (type and transition arrays and a sorted `ENTRIES` table).
- `src/calendar.rs` — the proleptic Gregorian calendar on Unix seconds.
- `src/meta.rs` — `zone1970.tab` / `iso3166.tab` scanning and ISO 6709
  coordinates (in ten-thousandths of a degree).
- `src/zipstore.rs` — reading stored (uncompressed) zip archives.
- `src/text.rs` — byte-level string comparisons.
- `app/lib.rs` — host glue: reads the metadata tables from
  `/usr/share/zoneinfo`, converts coordinates to degrees, and gives errors
  and rules `Display`.
