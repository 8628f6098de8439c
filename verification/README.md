# fsrs_lib

A spaced-repetition flashcard tool whose logic is written and proved in Verus.

- `src/` is the verified library: Markdown and tab-separated card parsing,
  question fingerprints, the update plan that decides which stored cards are
  skipped, updated (with their schedule reset) or inserted, the edit-file
  format, card-file composition, review and draft-review decisions, the
  health checks, the requests sent to the model and the reading of its
  replies, and the terminal Markdown renderer. Each public function carries
  a contract; the `law_*` proof functions state properties that span calls.
- `tests/` runs the library on concrete inputs.
- `app/` is the command-line program around it: argument parsing, the
  SQLite store, the Tantivy index, the FSRS scheduler (floating point),
  calls to the model, and terminal input and output.
