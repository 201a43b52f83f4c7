use accessibility_daemon::japanese::{
    align_furigana, fold_lookup_variants, get_prolonged_hiragana, is_half_width, katakana_to_hiragana,
    measured_variant_fold, normalize, vertical_punctuation, split_kana_list, RubySegment,
};
use accessibility_daemon::kana_rules::{
    falls_beyond_word, kana_orthography_modernise, kana_sound_changes_modernise, morae_of,
    pitch_pattern, KanaOrthographyTable, KanaSoundTable,
};
use accessibility_daemon::kana_tables::{
    KANA_AU, KANA_EU, KANA_HA, KANA_VARIANT_PAIRS, MEASURED_VARIANTS,
};

/// A `KANA_EU` row's modern form: its kana, followed by a small ょ when the
/// row says so.
fn eu_modern(kana: char, small_yo: bool) -> String {
    if small_yo {
        format!("{kana}ょ")
    } else {
        kana.to_string()
    }
}

#[test]
fn halfwidth_classification_matches_mobile() {
    assert!(is_half_width('A'));
    assert!(is_half_width('~'));
    assert!(is_half_width('\u{FF76}'));
    assert!(!is_half_width('あ'));
    assert!(!is_half_width('漢'));
    assert!(!is_half_width('。'));
}

fn seg(base: &str, ruby: Option<&str>) -> RubySegment {
    RubySegment { base: base.to_string(), ruby: ruby.map(|r| r.to_string()) }
}

#[test]
fn furigana_aligner_covers_kanji_only() {
    assert_eq!(
        align_furigana("食べる", "たべる").unwrap(),
        vec![seg("食", Some("た")), seg("べる", None)]
    );
    assert_eq!(
        align_furigana("大きい", "おおきい").unwrap(),
        vec![seg("大", Some("おお")), seg("きい", None)]
    );
    assert_eq!(
        align_furigana("申し込む", "もうしこむ").unwrap(),
        vec![seg("申", Some("もう")), seg("し", None), seg("込", Some("こ")), seg("む", None)]
    );
    assert_eq!(align_furigana("今日", "きょう").unwrap(), vec![seg("今日", Some("きょう"))]);
    assert!(align_furigana("食べる", "たべ").is_none());
}

#[test]
fn kana_list_split_strips_suffix_dashes() {
    assert_eq!(split_kana_list("しじぐい しじくい"), vec!["しじぐい", "しじくい"]);
    assert_eq!(split_kana_list("ぶん -ぶん"), vec!["ぶん", "ぶん"]);
    assert_eq!(split_kana_list("  "), Vec::<String>::new());
}

#[test]
fn pitch_morae_and_contour() {
    assert_eq!(morae_of("きょう"), vec!["きょ", "う"]);
    assert_eq!(morae_of("がっこう").len(), 4);
    assert_eq!(morae_of("コーヒー").len(), 4);
    assert_eq!(pitch_pattern(4, 0), vec![false, true, true, true]);
    assert_eq!(pitch_pattern(4, 1), vec![true, false, false, false]);
    assert_eq!(pitch_pattern(4, 3), vec![false, true, true, false]);
    assert!(falls_beyond_word(4, 4));
    assert!(!falls_beyond_word(4, 3));
    assert!(!falls_beyond_word(0, 0));
}

#[test]
fn kana_orthography_normalises_pre_reform_forms() {
    assert_eq!(kana_orthography_modernise("いつしよ"), "いっしょ");
    assert_eq!(kana_orthography_modernise("しゆつぱつ"), "しゅっぱつ");
    assert_eq!(kana_orthography_modernise("ちよつと"), "ちょっと");
    assert_eq!(kana_orthography_modernise("きやう"), "きゃう");
    assert_eq!(kana_orthography_modernise("ゐる"), "いる");
    assert_eq!(kana_orthography_modernise("植ゑた"), "植えた");
    assert_eq!(kana_orthography_modernise("あづま"), "あずま");
    assert_eq!(kana_orthography_modernise("おのづから"), "おのずから");
    assert_eq!(kana_orthography_modernise("はなぢ"), "はなじ");
    assert_eq!(kana_orthography_modernise("ウヰスキー"), "ウイスキー");
    assert_eq!(kana_orthography_modernise("ヱビス"), "エビス");
    assert_eq!(kana_orthography_modernise("つづく"), "つづく");
    assert_eq!(kana_orthography_modernise("ちぢむ"), "ちぢむ");
    assert_eq!(kana_orthography_modernise("ツヅク"), "ツヅク");
    assert_eq!(kana_orthography_modernise("本を読む"), "本を読む");
    assert_eq!(kana_orthography_modernise("ヲタク"), "ヲタク");
    assert_eq!(kana_orthography_modernise("ああ"), "ああ");
    assert_eq!(kana_orthography_modernise("そうそう"), "そうそう");
    assert_eq!(kana_orthography_modernise("つかう"), "つかう");
    assert_eq!(kana_orthography_modernise("つくえ"), "つくえ");
    assert_eq!(kana_orthography_modernise("あつた"), "あった");
    assert_eq!(kana_orthography_modernise("いつて"), "いって");
    assert_eq!(kana_orthography_modernise("いつぱい"), "いっぱい");
    for modern in ["", "あ", "ABC", "日本語", "コーヒー", "12月", "、。"] {
        assert_eq!(kana_orthography_modernise(modern), modern);
    }
}

#[test]
fn kana_sound_changes_normalise_legacy_grammar() {
    fn normalise(q: &str) -> String {
        kana_sound_changes_modernise(&kana_orthography_modernise(q))
    }
    assert_eq!(normalise("やう"), "よう");
    assert_eq!(normalise("きやう"), "きょう");
    assert_eq!(normalise("けふ"), "きょう");
    assert_eq!(normalise("てふ"), "ちょう");
    assert_eq!(normalise("しやう"), "しょう");
    assert_eq!(normalise("でせう"), "でしょう");
    assert_eq!(normalise("だらう"), "だろう");
    assert_eq!(normalise("ありがたう"), "ありがとう");
    assert_eq!(normalise("たふとし"), "とうとし");
    assert_eq!(normalise("といふのは"), "というのは");
    assert_eq!(normalise("思ふ"), "思う");
    assert_eq!(normalise("思ふが"), "思うが");
    assert_eq!(normalise("思ふ人"), "思う人");
    assert_eq!(normalise("思ひつ"), "思いつ");
    assert_eq!(normalise("戦ひながら"), "戦いながら");
    assert_eq!(normalise("数へて"), "数えて");
    assert_eq!(normalise("言へば"), "言えば");
    assert_eq!(normalise("添へた"), "添えた");
    assert_eq!(normalise("言はず"), "言わず");
    assert_eq!(normalise("思はぬ"), "思わぬ");
    assert_eq!(normalise("思はば"), "思わば");
    assert_eq!(normalise("ふね"), "ふね");
    assert_eq!(normalise("吹く"), "吹く");
    assert_eq!(normalise("ふうふ"), "ふうふ");
    assert_eq!(normalise("ひる"), "ひる");
    assert_eq!(normalise("へや"), "へや");
    assert_eq!(normalise("本は"), "本は");
    assert_eq!(normalise("はな"), "はな");
    assert_eq!(normalise("あう"), "あう");
    assert_eq!(normalise("まう"), "まう");
    assert_eq!(normalise("おほ"), "おほ");
    assert_eq!(normalise("本を読む"), "本を読む");
    for modern in [
        "", "あ", "ABC", "日本語", "つくえ", "にっぽん", "がっこう", "コーヒー", "12月", "、。",
        "つづく", "ちぢむ", "買う", "会う", "クラウン",
    ] {
        assert_eq!(normalise(modern), modern);
    }
}

#[test]
fn kana_orthography_parse_skips_malformed_lines_and_keeps_the_first_canonical() {
    let table = KanaOrthographyTable::parse(
        "# a comment\n\
         ゐ\tい\n\
         ゐ\tゑ\n\
         ゐい\n\
         い\tい\n\
         ゐ\tい\textra\n\
         𝄞\tう\n",
    );
    assert_eq!(1, table.entry_count());
    assert_eq!('い', table.canonical('ゐ'));
}

#[test]
fn kana_orthography_empty_table_is_the_identity() {
    let table = KanaOrthographyTable::empty();
    assert_eq!(0, table.entry_count());
    assert_eq!('ゐ', table.canonical('ゐ'));
    assert_eq!("ゐる", table.modernise("ゐる"));
}

#[test]
fn kana_orthography_builtin_and_parsed_tables_agree() {
    let builtin = KanaOrthographyTable::builtin();
    assert_eq!(16, builtin.entry_count());
    let text: String = KANA_VARIANT_PAIRS
        .iter()
        .map(|(variant, canonical)| format!("{variant}\t{canonical}\n"))
        .collect();
    let parsed = KanaOrthographyTable::parse(&text);
    assert_eq!(builtin.entry_count(), parsed.entry_count());
    for (variant, canonical) in KANA_VARIANT_PAIRS.iter() {
        assert_eq!(*canonical, builtin.canonical(*variant));
        assert_eq!(*canonical, parsed.canonical(*variant));
    }
    let custom = KanaOrthographyTable::parse("ゐ\tゑ\n");
    assert_eq!(1, custom.entry_count());
    assert_eq!("ゑる", custom.modernise("ゐる"));
}

#[test]
fn kana_sound_parse_skips_malformed_lines_and_keeps_the_first_mapping() {
    let table = KanaSoundTable::parse(
        "# a comment\n\
         ふ\tう\tha\n\
         ふ\tひ\tha\n\
         ふう\n\
         う\tう\tha\n\
         ふ\tう\tha\textra\n\
         ふう\tう\tha\n\
         け\tきょ\teu\n\
         け\tきょう\teu\n\
         け\tきょ\tunknown-row\n",
    );
    assert_eq!(2, table.entry_count());
    assert_eq!(Some('う'), table.ha('ふ'));
    assert_eq!(Some("きょ".to_string()), table.eu('け'));
}

#[test]
fn kana_sound_empty_table_is_the_identity() {
    let table = KanaSoundTable::empty();
    assert_eq!(0, table.entry_count());
    assert_eq!("けふ", table.modernise("けふ"));
}

#[test]
fn kana_sound_builtin_and_parsed_tables_agree() {
    let builtin = KanaSoundTable::builtin();
    assert_eq!(31, builtin.entry_count());
    assert_eq!(None, builtin.ha('ほ'));
    assert_eq!(None, builtin.au('あ'));
    assert_eq!(None, builtin.au('ま'));
    let mut text = String::new();
    for (variant, modern) in KANA_HA.iter() {
        text.push_str(&format!("{variant}\t{modern}\tha\n"));
    }
    for (variant, modern) in KANA_AU.iter() {
        text.push_str(&format!("{variant}\t{modern}\tau\n"));
    }
    for (variant, kana, small_yo) in KANA_EU.iter() {
        text.push_str(&format!("{variant}\t{}\teu\n", eu_modern(*kana, *small_yo)));
    }
    let parsed = KanaSoundTable::parse(&text);
    assert_eq!(builtin.entry_count(), parsed.entry_count());
    for (variant, modern) in KANA_HA.iter() {
        assert_eq!(Some(*modern), parsed.ha(*variant));
    }
    for (variant, modern) in KANA_AU.iter() {
        assert_eq!(Some(*modern), parsed.au(*variant));
    }
    for (variant, kana, small_yo) in KANA_EU.iter() {
        assert_eq!(Some(eu_modern(*kana, *small_yo)), parsed.eu(*variant));
    }
    let custom = KanaSoundTable::parse("い\tよ\teu\n");
    assert_eq!("よう", custom.modernise("いう"));
    assert_eq!("いう", builtin.modernise("いう"));
}

#[test]
fn fold_expands_hiragana_iteration_mark() {
    assert_eq!(fold_lookup_variants("こゝろ"), "こころ");
    assert_eq!(fold_lookup_variants("こゝ"), "ここ");
    assert_eq!(fold_lookup_variants("あゝ"), "ああ");
}

#[test]
fn fold_expands_voiced_iteration_mark() {
    assert_eq!(fold_lookup_variants("たゞ"), "ただ");
    assert_eq!(fold_lookup_variants("かゞ"), "かが");
    assert_eq!(fold_lookup_variants("はゞ"), "はば");
    assert_eq!(fold_lookup_variants("まゞ"), "まま");
    assert_eq!(fold_lookup_variants("がゞ"), "がが");
    assert_eq!(fold_lookup_variants("ナヾ"), "ナナ");
}

#[test]
fn fold_expands_katakana_iteration_marks() {
    assert_eq!(fold_lookup_variants("カヽ"), "カカ");
    assert_eq!(fold_lookup_variants("カヾ"), "カガ");
    assert_eq!(fold_lookup_variants("ハヾ"), "ハバ");
}

#[test]
fn fold_repeats_run_of_marks() {
    assert_eq!(fold_lookup_variants("こゝゝ"), "こここ");
}

#[test]
fn fold_leaves_mark_that_cannot_be_repeated() {
    assert_eq!(fold_lookup_variants("ゝあ"), "ゝあ");
    assert_eq!(fold_lookup_variants("日ゝ"), "日ゝ");
    assert_eq!(fold_lookup_variants("、ゝ"), "、ゝ");
    assert_eq!(fold_lookup_variants("。ヾ"), "。ヾ");
    assert_eq!(fold_lookup_variants("カゝ"), "カゝ");
    assert_eq!(fold_lookup_variants("あヽ"), "あヽ");
}

#[test]
fn fold_folds_obsolete_kana() {
    assert_eq!(fold_lookup_variants("こゑ"), "こえ");
    assert_eq!(fold_lookup_variants("ヰロ"), "イロ");
}

#[test]
fn fold_folds_roman_numerals() {
    assert_eq!(fold_lookup_variants("Ⅶ"), "VII");
    assert_eq!(fold_lookup_variants("Ⅷ"), "VIII");
    assert_eq!(fold_lookup_variants("第Ⅻ章"), "第XII章");
    assert_eq!(fold_lookup_variants("ⅸ"), "ix");
}

#[test]
fn fold_folds_compatibility_and_chinese_only_forms() {
    assert_eq!(fold_lookup_variants("20℃"), "20°C");
    assert_eq!(fold_lookup_variants("状况"), "状況");
    assert_eq!(fold_lookup_variants("调查④"), "调査④");
}

#[test]
fn fold_leaves_pruned_characters_alone() {
    assert_eq!(fold_lookup_variants("调"), "调");
}

#[test]
fn fold_leaves_kanji_iteration_mark_alone() {
    assert_eq!(fold_lookup_variants("日々"), "日々");
    assert_eq!(normalize("日々"), "日々");
}

#[test]
fn fold_folds_measured_unihan_variants() {
    assert_eq!(fold_lookup_variants("囘"), "回");
    assert_eq!(fold_lookup_variants("欝"), "鬱");
    assert_eq!(fold_lookup_variants("壜"), "壜");
    assert_eq!(fold_lookup_variants("劒"), "劍");
    assert_eq!(fold_lookup_variants("慙"), "慚");
    assert_eq!(fold_lookup_variants("囘想"), "回想");
    assert_eq!(fold_lookup_variants("欝々"), "鬱々");
    assert_eq!(fold_lookup_variants("慙愧"), "慚愧");
    assert_eq!(fold_lookup_variants("迯げる"), "逃げる");
    assert_eq!(fold_lookup_variants("噐械"), "器械");
    assert_eq!(fold_lookup_variants("迯"), "逃");
}

#[test]
fn unihan_fold_picks_the_corpus_dominant_canonical() {
    assert_eq!(fold_lookup_variants("葢"), "蓋");
    assert_eq!(fold_lookup_variants("悋"), "吝");
    assert_eq!(fold_lookup_variants("冫"), "氷");
    assert_eq!(fold_lookup_variants("秇"), "藝");
    assert_eq!(fold_lookup_variants("﨑"), "崎");
}

#[test]
fn unihan_fold_does_not_run_backwards() {
    assert_eq!(fold_lookup_variants("回"), "回");
    assert_eq!(fold_lookup_variants("鬱"), "鬱");
    assert_eq!(fold_lookup_variants("蓋"), "蓋");
    assert_eq!(normalize("回想"), "回想");
}

#[test]
fn unihan_fold_is_idempotent_and_leaves_unknown_characters_alone() {
    let plain = "日本語のテキストです。";
    assert_eq!(fold_lookup_variants(plain), plain);
    for s in ["囘想", "欝々", "迯げる", "噐械", "壜", "﨑", "囘囘回"] {
        let once = normalize(s);
        assert_eq!(normalize(&once), once, "not idempotent for {s:?}");
    }
}

#[test]
fn fold_folds_the_jmdict_half_and_leaves_modern_forms_alone() {
    assert_eq!(fold_lookup_variants("摑"), "掴");
    assert_eq!(fold_lookup_variants("國"), "国");
    assert_eq!(fold_lookup_variants("會"), "会");
    assert_eq!(fold_lookup_variants("燈"), "灯");
    assert_eq!(fold_lookup_variants("掴"), "掴");
    assert_eq!(fold_lookup_variants("国"), "国");
    assert_eq!(fold_lookup_variants("冩"), "写");
    assert_eq!(fold_lookup_variants("坂"), "坂");
}

#[test]
fn normalize_applies_the_fold() {
    assert_eq!(normalize("こゝろ"), "こころ");
    assert_eq!(normalize("たゞ"), "ただ");
    assert_eq!(normalize("Ⅶ"), "VII");
    assert_eq!(normalize("状况"), "状況");
}

#[test]
fn normalize_widens_halfwidth_kana_before_folding() {
    assert_eq!(normalize("ｶヽ"), "カカ");
}

#[test]
fn fold_is_idempotent_and_noop_on_plain_text() {
    let plain = "日本語のテキストです。";
    assert_eq!(fold_lookup_variants(plain), plain);
    assert_eq!(normalize(plain), plain);
    for s in ["こゝろ", "たゞ", "Ⅶ", "状况", "カヾ"] {
        assert_eq!(normalize(&normalize(s)), normalize(s));
    }
}

#[test]
fn normalize_existing_behaviour_is_unchanged() {
    assert_eq!(normalize("？"), "?");
    assert_eq!(normalize("Ａ１"), "A1");
    assert_eq!(normalize("あ︙"), "あ…");
    assert_eq!(normalize("あ　い"), "あ い");
}

#[test]
fn normalize_stages_run_in_pipeline_order() {
    assert_eq!(normalize("ｶヽ"), "カカ");
    assert_eq!(normalize("ｶﾞヾ"), "ガガ");
    assert_eq!(normalize("か\u{3099}ゞ"), "がゞ");
    assert_eq!(normalize("は\u{309A}"), "ぱ");
}

#[test]
fn katakana_to_hiragana_folds_the_block() {
    assert_eq!(katakana_to_hiragana("タベル"), "たべる");
    assert_eq!(katakana_to_hiragana("カタカナ"), "かたかな");
    assert_eq!(katakana_to_hiragana("ヴァイオリン"), "ゔぁいおりん");
    assert_eq!(katakana_to_hiragana("コーヒー"), "こうひい");
    assert_eq!(katakana_to_hiragana("ー"), "ー");
    assert_eq!(katakana_to_hiragana("食べル"), "食べる");
    assert_eq!(katakana_to_hiragana("ABC"), "ABC");
}

#[test]
fn measured_variant_fold_accessor_matches_the_table() {
    let pairs = measured_variant_fold();
    assert_eq!(pairs.len(), 165);
    assert_eq!(pairs.len(), MEASURED_VARIANTS.len());
    for (variant, canonical) in &pairs {
        let row = MEASURED_VARIANTS.iter().find(|(v, _)| v == variant);
        assert_eq!(row.map(|(_, c)| c.to_string()), Some(canonical.clone()));
        assert_eq!(canonical.chars().count(), 1, "{variant} -> {canonical}");
    }
    let mut sorted = pairs.clone();
    sorted.sort_unstable();
    assert_eq!(pairs, sorted, "stable order for the boundary");
}

#[test]
fn the_long_vowel_mark_follows_voiced_and_full_size_kana() {
    assert_eq!(katakana_to_hiragana("ガー"), "があ");
    assert_eq!(katakana_to_hiragana("アー"), "ああ");
    assert_eq!(katakana_to_hiragana("イー"), "いい");
    assert_eq!(katakana_to_hiragana("エー"), "ええ");
    assert_eq!(katakana_to_hiragana("ゲーム"), "げえむ");
    assert_eq!(katakana_to_hiragana("ビール"), "びいる");
    assert_eq!(katakana_to_hiragana("パーティー"), "ぱあてぃい");
    assert_eq!(katakana_to_hiragana("ボール"), "ぼうる");
    assert_eq!(katakana_to_hiragana("がー"), "があ");
    assert_eq!(get_prolonged_hiragana('ジ'), 'い');
    assert_eq!(get_prolonged_hiragana('x'), 'う');
}

#[test]
fn vertical_punctuation_is_undone_by_normalization() {
    for text in ["え?", "待って…", "‥‥まだ", "ABC", "", "？︙︰"] {
        let vertical = vertical_punctuation(text);
        assert_eq!(vertical.chars().count(), text.chars().count());
        assert_eq!(normalize(&vertical), normalize(text));
    }
}
