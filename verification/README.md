# realphoto

The verified core of a desktop photo and video organiser. It scans media
folders, files pictures and videos into dated folders, and finds groups of
similar pictures by perceptual hash (optionally confirmed by image
embeddings) for review and deletion.

Layout:

- `src/` — the library, verified with Verus:
  - `organizer.rs`: reading dates, expanding folder patterns such as
    `YYYY/MM/DD`, and the per-file decisions of an organising run;
  - `scanner.rs`: media kinds by extension, EXIF capture dates, perceptual
    hashes, MD5 digests, and the tallies of a scan;
  - `clusters.rs`, `dedup.rs`, `phash.rs`: complete-linkage clustering of
    similar pictures and the stages of a duplicate search, with the proofs
    that every reported group is tight;
  - `thumbnail.rs`: thumbnails as data URIs and their bounded cache;
  - `projects.rs`, `embedder.rs`, `ids.rs`, `text.rs`, `models.rs`: the
    rules around projects and files, engine choice and status, identifiers,
    text helpers and the shared records.
- `app/` — the application around the library: the SQLite store, the file
  system walks and copies, the embedding model, and the commands.
- `tests/` — tests of the library on concrete values.
