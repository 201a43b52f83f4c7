use accessibility_daemon::dictionary::{name_matches_family, DictionaryEntry};

#[test]
fn family_match_accepts_exact_title_and_bracketed_revision() {
    assert!(name_matches_family("Jitendex.org [2026-08-11]", "Jitendex.org"));
    assert!(name_matches_family("Jitendex.org", "Jitendex.org"));
    assert!(name_matches_family("KANJIDIC", "KANJIDIC"));
    assert!(name_matches_family("KANJIDIC [2026-258]", "KANJIDIC"));
    assert!(!name_matches_family("Jitendex", "Jitendex.org"));
    assert!(!name_matches_family("Jitendex.org Extra", "Jitendex.org"));
    assert!(!name_matches_family("Jitendex.org[old]", "Jitendex.org"));
}

#[test]
fn family_wildcards_are_plain_characters() {
    assert!(!name_matches_family("AB [1]", "A_"));
    assert!(name_matches_family("A_ [1]", "A_"));
    assert!(!name_matches_family("ABC", "A%"));
}

#[test]
fn new_entry_has_no_id_or_kanji_metadata() {
    let e = DictionaryEntry::new(
        "分".to_string(),
        "ぶん".to_string(),
        "[\"minute\"]".to_string(),
        "n".to_string(),
        3,
        7,
    );
    assert_eq!(e.id, 0);
    assert_eq!(e.kanji, "分");
    assert_eq!(e.reading, "ぶん");
    assert_eq!(e.definitions, "[\"minute\"]");
    assert_eq!(e.rules, "n");
    assert_eq!(e.popularity, 3);
    assert_eq!(e.dictionary_id, 7);
    assert!(e.onyomi.is_none() && e.kunyomi.is_none() && e.jlpt.is_none());
}
