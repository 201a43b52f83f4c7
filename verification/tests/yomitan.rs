use accessibility_daemon::yomitan::{
    bank_number, bank_plan, classify_bank, dictionary_title, extract_bank_number, is_bank_named,
    is_tag_bank, next_priority, BankType, ImportProgress,
};

#[test]
fn classifies_banks_and_extracts_natural_sort_numbers() {
    assert_eq!(classify_bank("term_bank_2.json"), Some(BankType::Term));
    assert_eq!(classify_bank("kanji_bank_12.json"), Some(BankType::Kanji));
    assert_eq!(classify_bank("term_meta_bank_3.json"), Some(BankType::TermMeta));
    assert_eq!(classify_bank("tag_bank_1.json"), None);
    assert_eq!(classify_bank("term_bank_1.txt"), None);
    assert_eq!(classify_bank("other.json"), None);
    assert!(is_tag_bank("tag_bank_4.json"));

    assert_eq!(bank_number("term_bank_12.json"), Some(12));
    assert_eq!(bank_number("term_meta_bank_3.json"), Some(3));
    assert_eq!(bank_number("term_bank_2.txt"), None);
    assert_eq!(bank_number("term_bank_.json"), None);
    assert_eq!(extract_bank_number("term_bank_bad.json"), 0);

    let mut names = vec!["term_bank_10.json", "term_bank_2.json"];
    names.sort_by_key(|name| extract_bank_number(name));
    assert_eq!(names, vec!["term_bank_2.json", "term_bank_10.json"]);
}

#[test]
fn bank_numbers_follow_u64_parsing() {
    assert_eq!(bank_number("term_bank_+7.json"), Some(7));
    assert_eq!(bank_number("term_bank_+.json"), None);
    assert_eq!(bank_number("term_bank_-1.json"), None);
    assert_eq!(bank_number("term_bank_18446744073709551615.json"), Some(u64::MAX));
    assert_eq!(bank_number("term_bank_18446744073709551616.json"), None);
    assert_eq!(bank_number("bank.json"), None);
    assert_eq!(bank_number("42.json"), Some(42));
    assert!(is_bank_named("kanji_bank_1.json", "kanji_bank_"));
    assert!(!is_bank_named("kanji_bank_1.jso", "kanji_bank_"));
}

#[test]
fn bank_plan_orders_entry_banks_naturally() {
    let names: Vec<String> = [
        "index.json",
        "term_bank_10.json",
        "tag_bank_1.json",
        "kanji_bank_2.json",
        "term_bank_2.json",
        "term_meta_bank_1.json",
        "term_bank_x.json",
        "readme.txt",
    ]
    .iter()
    .map(|s| s.to_string())
    .collect();
    let plan = bank_plan(&names);
    assert_eq!(
        plan,
        vec![
            (6, BankType::Term),
            (5, BankType::TermMeta),
            (3, BankType::Kanji),
            (4, BankType::Term),
            (1, BankType::Term),
        ]
    );
}

#[test]
fn import_progress_counts_banks_and_entries() {
    let p = ImportProgress::start(3);
    assert_eq!((p.entries_imported, p.banks_done, p.banks_total), (0, 0, 3));
    assert_eq!(p.current_file, "");
    let p = p.after_bank(120, "term_bank_1.json");
    let p = p.after_bank(5, "kanji_bank_1.json");
    assert_eq!((p.entries_imported, p.banks_done, p.banks_total), (125, 2, 3));
    assert_eq!(p.current_file, "kanji_bank_1.json");
}

#[test]
fn imported_dictionaries_are_named_and_ranked() {
    assert_eq!(dictionary_title(Some("jmdict"), Some("JMdict (English)")), "JMdict (English)");
    assert_eq!(dictionary_title(Some("jmdict"), None), "jmdict");
    assert_eq!(dictionary_title(None, None), "Imported Dictionary");
    assert_eq!(next_priority(None), 0);
    assert_eq!(next_priority(Some(4)), 5);
    assert_eq!(next_priority(Some(-1)), 0);
}
