# eonsort

Sorts photos and videos into date-based folders by the date they were actually
taken. This crate is its engine, written in Verus: every rule that decides a date,
a destination, a doubt or a copy is an executable function with a contract that
Verus proves.

## Layout

- `src/` — the verified library.
  - `providers/` — the sources of dates (file names, EXIF blocks, movie boxes,
    XMP and Takeout sidecars) and how one date is chosen among them.
  - `dateparse.rs`, `moment.rs` — dates in text, and calendar arithmetic.
  - `naming.rs`, `model.rs`, `presets.rs` — patterns, destinations and plan records.
  - `plan.rs`, `scan.rs`, `overrides.rs`, `companion.rs` — building a plan,
    correcting it, and keeping companion files together.
  - `suspect.rs`, `offset.rs` — doubtful dates, and runs of files sharing one
    wrong clock.
  - `copy.rs` — the choices made while copying, and carrying on after a stop.
  - `duplicates.rs`, `similar.rs` — identical and near-identical files.
  - `exif_write.rs`, `raw.rs`, `rotate.rs` — reading and patching picture bytes.
- `tests/` — tests run against the compiled library.
- `app/` — the `eonsort` command: walking folders, reading and writing files,
  and the JSON form of plan and journal files.

Calls into outside crates (chrono, blake3, kamadak-exif, serde_json, base64) stand
behind small trusted functions whose contracts say what those crates promise.
