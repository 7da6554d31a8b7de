# guixu

The verified core of a local-first file organiser: it plans and checks file moves,
copies and renames, finds exact and near duplicates, parses structured searches,
coalesces file-system events, and keeps the rules that decide what is safe to do
with a user's files.

## Layout

- `src/` — the library, written in Verus. Every function carries a contract that
  Verus proves; laws that relate several functions are public proof functions.
  - `text`, `paths`, `order` — character sequences, path components, key orders
    and sorting.
  - `domain`, `platform` — shared records, file identities and snapshots, the
    launcher's argument lists.
  - `analysis`, `duplicates`, `similarity`, `digest` — cleanup reasons, retention
    ranking, safe names, classification, image dHashes from encoded bytes, the
    three-tier exact-duplicate pipeline, whole and incremental BLAKE3 digests,
    SimHash/MinHash fingerprints and the multi-index candidate search.
  - `duplicate_run` — the order of questions and work in a controlled duplicate
    analysis, as a step function the caller drives.
  - `storage` — search parsing and planning, reconcile decisions, status names,
    cache and feature validity, file pages, schema migration steps.
  - `job_queue` — the persistent job queue's rules: claim order, reuse, leases,
    progress, pause and cancel, final transfers, expired leases.
  - `jobs` — the background worker's decisions: routing, progress cadence, how a
    read status steers a run and how a run ends.
  - `similar_content` — which files the similarity analyses read, what a text
    contributes and when a candidate pair is confirmed.
  - `requests` — batch request limits, repeated files and plan lifetime.
  - `settings` — the desktop settings' defaults and allowed values.
  - `operations` — name checks, preflight, rename/copy/trash planning, the
    fallback from an exclusive rename to a verified copy, move and undo
    verification, recovery decisions, the operation state machine.
  - `execution`, `undo` — the durable order in which a stored plan is carried out
    and an operation's moves are undone, as step functions the caller drives.
  - `indexer` — the dirty-directory set of the watcher, the scan bookkeeping, what
    a scan does with each entry it meets (links are never followed) and the
    directories a watcher's request reconciles.
  - `desktop` — labels, hash text, stored feature blobs, history and duplicate
    views, organize-plan naming, authorization of indexed paths, smart-folder
    fields and text previews decoded from bytes.
- `app/` — ordinary Rust around the library: observing files on disk, moving and
  copying them, walking and watching folders, reading files for hashing and
  decoding, driving the library's step functions, the floating-point scores (the
  DCT pHash among them), error texts and serialised records.
- `tests/` — tests of the library on concrete values.
