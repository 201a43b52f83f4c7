//! Japanese text processing for an OCR reading assistant: lookup-query
//! normalisation, kana orthography and sound-change tables, furigana
//! alignment, kanji variant tables, deinflection, dictionary bank naming and
//! the overlay's navigation graph helpers.
pub mod deinflector;
pub mod japanese;
pub mod kana_rules;
pub mod kana_tables;
pub mod kanji_variants;
pub mod text;
pub mod nav_graph;
pub mod yomitan;
pub mod dictionary;
pub mod bank_rows;
pub mod ocr_layout;
pub mod overlay_cursor;
pub mod desktop;
pub mod fold_laws;
pub mod screenshot;
pub mod settings;
pub mod formatted;
