# accessibility_daemon

The text and layout logic of an OCR reading assistant for Japanese
screenshots, written in Verus with its behaviour stated as contracts and
proved.

- `src/` — the verified library: lookup-query normalisation and folding,
  furigana alignment, pre-reform kana tables, kanji variant tables,
  deinflection, dictionary bank naming and row parsing, pitch payloads, the
  overlay cursor and navigation graph, reading order of detected lines,
  screenshot pixel conversion, desktop paths and help texts, and the
  persisted settings.
- `tests/` — tests of the library on concrete values.
- `app/` — a small command-line front end: file and directory I/O, JSON
  parsing with serde, floating-point geometry, and the settings store.
