# cli4all

Deterministic cross-platform command translation, with its logic verified
by Verus. You type the command you remember (`ipconfig`, `dir`, `ls -la`),
and the library detects the platform it comes from, finds its intent in a
reviewed command catalog, translates it to the native command of the
current platform, assesses its risk, and decides whether it may run.

## Layout

- `src/` — the verified library.
  - `store/` — the C4DB command store: the data file framing
    (`c4db_builder`, `c4db_store`), the B+ tree index file writer and reader
    (`bplus_tree`), key normalization, and the laws that tie writing and
    reading together (`index_laws`, `scan_laws`, `store_laws`).
  - `detector`, `translator`, `safety`, `rules` — detection of a remembered
    command, translation to a target platform, and risk rules.
  - `shell` — the decisions of the interactive shell (run, ask, block,
    refuse) and the laws of its safety policy.
  - `desktop` — the terminal session state machine of the desktop app,
    catalog search, and `cd` handling.
  - `explainer`, `fixer`, `output`, `data_paths`, `platform`, `executor`,
    `text` — the remaining commands, output formats and helpers.
- `app/` — the command-line program: argument parsing, files, JSON and YAML
  decoding, and running translated commands.
- `tests/` — tests of the library on a reviewed catalog.

## Main laws

- The index writer refuses entries that are not strictly sorted, a key
  that does not fit in a page, and (beyond any realistic size) a file whose
  pages the format's `u64` offsets could not address. Whatever it writes
  answers every key with the pointer written for it, and a prefix scan
  with exactly the entries whose keys start with the prefix, in key order.
- A store built from records finds every record by its intent and by each
  of its example commands, lists it under its category, and answers an
  intent that no record has with nothing.
- The data file frames exactly the blobs it was written from.
- Normalizing a command twice changes nothing more than normalizing it once.
- The shell blocks exactly the destructive lines, never runs an unknown
  line, runs or offers only translated native commands, and runs without
  asking only low-risk ones, whatever the case a catalog spells its levels
  in. The command it hands over to run is the translated command, and the
  response then shows that run's output and exit status. A line runs only
  when decided as Execute, or as Confirm and answered yes.
- A translation's suggestions are never empty, hold no repeats, miss no
  filled example, and start with the normalized command; removing repeats
  keeps each item's first occurrence, in order.
- Detection rests on the best match: a full match beats a token match, and
  among equals the best-ranked platform wins.
- Catalog search finds nothing for a blank query, and otherwise shows the
  first `limit` candidates in showing order, each with a positive score,
  never a destructive one.
- Data directories are searched in order, each path once: spellings with
  repeated or trailing separators or inner `.` steps name the same path.
- A record names each platform once; records read into a store must, and
  putting records in order keeps it so.
