use accessibility_daemon::kanji_variants::KanjiVariantTable;

#[test]
fn empty_table_is_the_identity() {
    let t = KanjiVariantTable::parse("");
    assert_eq!(0, t.entry_count());
    assert_eq!('囘', t.canonical('囘'));
    assert!(t.obsolete_forms_of('回').is_empty());
}

#[test]
fn parse_skips_malformed_lines_and_keeps_the_first_canonical() {
    let t = KanjiVariantTable::parse(
        "# a comment\n\u{2F804}\t你\n囘\t回\n囘\t囬\n囘\t回\textra\n囘回\n回\t回\n",
    );
    // Only the well-formed single-character pairs survive (U+2F804 lies
    // outside the Basic Multilingual Plane, so its line is skipped); the
    // duplicate variant keeps the first line.
    assert_eq!(1, t.entry_count());
    assert_eq!('回', t.canonical('囘'));
}

#[test]
fn asset_text_without_pairs_is_no_table() {
    assert!(KanjiVariantTable::from_asset_text("# nothing\n").is_none());
    let t = KanjiVariantTable::from_asset_text("囘\t回\n").expect("one pair");
    assert_eq!(1, t.entry_count());
}

#[test]
fn obsolete_forms_are_the_variants_of_a_canonical() {
    let t = KanjiVariantTable::parse("囘\t回\n囬\t回\n欝\t鬱\n");
    assert_eq!(3, t.entry_count());
    assert_eq!(vec!['囘', '囬'], t.obsolete_forms_of('回'));
    assert_eq!(vec!['回'], t.canonicals_of('囘'));
    assert!(t.obsolete_forms_of('あ').is_empty());
}

#[test]
fn parsed_tables_never_list_a_character_as_its_own_variant() {
    let t = KanjiVariantTable::parse("# comment\n國\t国\n國\t囯\n学\t学\n學\t学\n");
    assert_eq!(t.entry_count(), 2);
    assert_eq!(t.canonicals_of('國'), vec!['囯', '国']);
    assert!(!t.canonicals_of('学').contains(&'学'));
    assert!(!t.obsolete_forms_of('学').contains(&'学'));
    assert_eq!(t.obsolete_forms_of('学'), vec!['學']);
    assert_eq!(t.canonical('國'), '国');
    assert!(t.canonicals_of('國').contains(&t.canonical('國')));
    assert_eq!(t.canonical('学'), '学');
    assert!(t.canonicals_of('学').is_empty());
}
