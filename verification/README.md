# synapse_client

The logic of the Synapse reader client, verified with Verus: every function in `src/` carries
a contract over mathematical models (`Seq`, `Set`, `Multiset`, views of the data types), and
the laws of the library are stated and proved as public proof functions.

## Layout

- `src/text.rs` — character-level primitives every parser shares (trimming, splitting,
  joining, searching), with their specifications and the splitting/joining lemmas.
- `src/catalog/` — navigation of the catalog tree (reading order, owning book, cover
  targets, card counts, the sidebar filter, the problem-page split, the architecture-viewer
  click resolver); the editorial document model (`editorial.rs`); the problem tabs and their
  label matcher (`pane.rs`); reading preferences (`prefs.rs`); reading progress
  (`progress.rs`); the sidebar face (`sidebar.rs`).
- `src/execution/` — runnable-block variants, the code-runner state machine, the language
  vocabulary and the remembered language, the practice-problem model, the judging poll.
- `src/search/` — flattening the library into searchable entries and ranking them.
- `src/router/page.rs` — the app-map: URL segments to pages and back.
- `src/api.rs`, `src/identity.rs`, `src/quiz.rs`, `src/seo.rs`, `src/shell.rs`,
  `src/blog.rs` — endpoints and error text, sign-in and account decisions, quiz cards, the
  document title, the theme and build label, blog slugs.
- `src/wire.rs` — the wire shapes the client reads, as plain values.
- `app/` — the browser edge: storage, the document head, JSON decoding into the library's
  values, the bearer-token seam, and the floating-point layout measurements.
- `tests/` — scenario tests of the library.

## Laws proved

Round trips of the stored forms (preferences, reading progress) and of page URLs; a bad
preference token costs only its field; the stored progress form depends only on the set of
finished lessons; marking and unmarking a lesson; a book is finished exactly when no lesson is
left to read; search results are the matching entries ordered by rank, at most twenty; every
language alias belongs to exactly one language and folds onto it; the problem page splits at
the first `<details` line outside every fence; the viewer click resolves at the first control
or node; the shape of a parsed editorial; editorial tabs hold trimmed, non-blank text; trimming
is idempotent; a buffer has no changed line exactly when it is the authored source; stale run
results never change the runner's state.
