# rooted

The core of a Bible reader with notes, highlights, downloadable
translations and an ingestion pipeline that turns typed documents, scans
and recordings into notes once a person has checked the extracted text.

- `src/` is the library, verified with Verus: anchors and how notes and
  highlights attach to them, the tokenizer and the book importer for
  translation packs, the job state machine of the ingestion pipeline and
  every decision it makes on a job, upload naming, and the worker status.
  Each public function states its result in its `ensures`; the laws that
  relate several functions are public proof functions named `law_*`.
- `app/` is the shell around it: the SQLite database shared with the
  worker process, downloads, the worker process itself and the JSON forms
  of the library's types. It reads what a decision needs, calls the
  library, and writes what the library decided. The desktop window layer
  (the Tauri commands and the app's start-up) is not part of this crate:
  `app/` offers each of its operations as a plain function over a
  `rusqlite::Connection`, for such a layer to call.
- `tests/` runs the library on concrete cases.
