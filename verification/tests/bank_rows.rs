use accessibility_daemon::bank_rows::{
    parse_index_title, parse_kanji_bank, parse_tag_bank, parse_term_bank, parse_term_meta_bank,
    pitch_positions_of, pitch_reading_of, value_to_string, BankError, JsonNode, JsonValue,
};

fn s(x: &str) -> JsonValue {
    JsonValue { node: JsonNode::Str(x.to_string()), json: format!("\"{x}\"") }
}
fn num(x: i64) -> JsonValue {
    JsonValue { node: JsonNode::Number(Some(x)), json: x.to_string() }
}
fn null() -> JsonValue {
    JsonValue { node: JsonNode::Null, json: "null".to_string() }
}
fn arr(items: Vec<JsonValue>, json: &str) -> JsonValue {
    JsonValue { node: JsonNode::Array(items), json: json.to_string() }
}
fn obj(fields: Vec<(&str, JsonValue)>, json: &str) -> JsonValue {
    JsonValue {
        node: JsonNode::Object(fields.into_iter().map(|(k, v)| (k.to_string(), v)).collect()),
        json: json.to_string(),
    }
}

#[test]
fn flat_text_of_fields() {
    assert_eq!(value_to_string(&s("v1")), "v1");
    assert_eq!(value_to_string(&arr(vec![s("tag-a"), num(3), s("tag-b")], "")), "tag-a tag-b");
    assert_eq!(value_to_string(&null()), "");
    assert_eq!(value_to_string(&num(7)), "7");
}

#[test]
fn term_rows_keep_definitions_and_flatten_rules() {
    let bank = arr(
        vec![
            arr(
                vec![s("吃"), s("たべる"), s(""), s("v1"), num(7), arr(vec![s("to eat")], "[\"to eat\"]"), num(3), s("common")],
                "",
            ),
            arr(vec![null(), s("drop"), s(""), s(""), num(0), arr(vec![s("drop")], "[\"drop\"]"), num(1), s("")], ""),
            arr(
                vec![
                    s("欠"),
                    s("かく"),
                    arr(vec![s("tag-a"), s("tag-b")], ""),
                    s("v5"),
                    num(2),
                    obj(vec![("type", s("structured-content"))], "{\"type\":\"structured-content\"}"),
                    num(4),
                    s(""),
                ],
                "",
            ),
        ],
        "",
    );
    let rows = parse_term_bank(&bank, 41).unwrap();
    assert_eq!(rows.len(), 2);
    assert_eq!(rows[0].kanji, "吃");
    assert_eq!(rows[0].reading, "たべる");
    assert_eq!(rows[0].definitions, r#"["to eat"]"#);
    assert_eq!(rows[0].rules, " | v1 | common");
    assert_eq!(rows[0].popularity, 7);
    assert_eq!(rows[0].dictionary_id, 41);
    assert_eq!(rows[1].rules, "tag-a tag-b | v5");
    assert_eq!(rows[1].definitions, r#"{"type":"structured-content"}"#);
    assert_eq!(parse_term_bank(&s("x"), 1).unwrap_err(), BankError::NotAnArray);
}

#[test]
fn kanji_rows_preserve_readings_and_optional_metadata() {
    let bank = arr(
        vec![
            arr(
                vec![
                    s("漢"),
                    arr(vec![s("カン"), s("かん")], ""),
                    arr(vec![s("た."), s("た.し")], ""),
                    s("8"),
                    arr(vec![s("kanji")], "[\"kanji\"]"),
                    obj(vec![("jlpt", s("N5"))], ""),
                ],
                "",
            ),
            arr(vec![s("空"), arr(vec![], "[]"), arr(vec![], "[]"), s(""), arr(vec![], "[]"), obj(vec![], "{}")], ""),
        ],
        "",
    );
    let rows = parse_kanji_bank(&bank, 9).unwrap();
    assert_eq!(rows.len(), 2);
    assert_eq!(rows[0].reading, "カン かん");
    assert_eq!(rows[0].onyomi.as_deref(), Some("カン かん"));
    assert_eq!(rows[0].kunyomi.as_deref(), Some("た. た.し"));
    assert_eq!(rows[0].rules, "grade:8");
    assert_eq!(rows[0].jlpt.as_deref(), Some("N5"));
    assert_eq!(rows[0].definitions, "[\"kanji\"]");
    assert_eq!(rows[1].onyomi, None);
    assert_eq!(rows[1].kunyomi, None);
    assert_eq!(rows[1].jlpt, None);
    assert!(parse_kanji_bank(&arr(vec![arr(vec![], "[]")], ""), 1).unwrap().is_empty());
}

#[test]
fn term_meta_keeps_only_pitch_rows_with_a_reading() {
    let p1 = obj(vec![("reading", s("ぶん")), ("pitches", arr(vec![], ""))], r#"{"reading":"ぶん","pitches":[{"position":1}]}"#);
    let bank = arr(
        vec![
            arr(vec![s("分"), s("pitch"), p1], ""),
            arr(vec![s("分"), s("freq"), obj(vec![("value", num(100))], "")], ""),
            arr(vec![s("分"), s("pitch"), obj(vec![("pitches", arr(vec![], ""))], "")], ""),
            arr(vec![s("ふん"), s("pitch"), obj(vec![("reading", s("ふん"))], "")], ""),
        ],
        "",
    );
    let rows = parse_term_meta_bank(&bank, 12).unwrap();
    assert_eq!(rows.len(), 2);
    assert_eq!(rows[0].kanji, "分");
    assert_eq!(rows[0].reading, "ぶん");
    assert_eq!(rows[0].definitions, r#"{"reading":"ぶん","pitches":[{"position":1}]}"#);
    assert_eq!(rows[1].reading, "ふん");
    assert_eq!(rows[0].rules, "");
    assert_eq!(rows[0].popularity, 0);
}

#[test]
fn tag_rows_and_index_title_follow_the_shared_shape() {
    let bank = arr(
        vec![
            arr(vec![s("common"), s("partOfSpeech"), num(4), s("keep"), num(12)], ""),
            arr(vec![s("x")], ""),
        ],
        "",
    );
    let rows = parse_tag_bank(&bank, 3).unwrap();
    assert_eq!(rows.len(), 1);
    assert_eq!(rows[0].name, "common");
    assert_eq!(rows[0].category, "partOfSpeech");
    assert_eq!(rows[0].order, 4);
    assert_eq!(rows[0].notes, "keep");
    assert_eq!(rows[0].popularity, 12);
    assert_eq!(rows[0].dictionary_id, 3);
    assert_eq!(parse_index_title(&obj(vec![("title", s("Jitendex.org"))], "")).as_deref(), Some("Jitendex.org"));
    assert_eq!(parse_index_title(&obj(vec![("title", num(7))], "")), None);
    assert_eq!(parse_index_title(&s("not an object")), None);
}

fn pitch(position: i64) -> JsonValue {
    obj(vec![("position", num(position))], "")
}

#[test]
fn positions_parsed_from_pitch_payload() {
    let doc = obj(vec![("reading", s("ひと")), ("pitches", arr(vec![pitch(0), pitch(2)], ""))], "");
    assert_eq!(pitch_positions_of(&doc), Some(vec![0, 2]));
}

#[test]
fn positions_deduped_and_sorted() {
    let doc = obj(vec![("reading", s("あ")), ("pitches", arr(vec![pitch(3), pitch(0), pitch(3)], ""))], "");
    assert_eq!(pitch_positions_of(&doc), Some(vec![0, 3]));
}

#[test]
fn non_pitch_payloads_are_rejected() {
    assert_eq!(pitch_positions_of(&s("just a gloss")), None);
    assert_eq!(pitch_positions_of(&obj(vec![("glossary", s("x"))], "")), None);
    assert_eq!(pitch_positions_of(&obj(vec![("pitches", arr(vec![pitch(1)], ""))], "")), None);
    assert_eq!(pitch_positions_of(&obj(vec![("reading", s("きみ"))], "")), None);
}

#[test]
fn reading_extracted() {
    let doc = obj(vec![("reading", s("きみ")), ("pitches", arr(vec![pitch(1)], ""))], "");
    assert_eq!(pitch_reading_of(&doc), Some("きみ".to_string()));
    assert_eq!(pitch_reading_of(&obj(vec![("pitches", arr(vec![], ""))], "")), None);
}

#[test]
fn malformed_bank_documents_are_errors_but_bad_rows_are_skipped() {
    // A document that is not an array of rows is an error for every bank kind.
    let not_rows = s("not json");
    assert_eq!(parse_term_bank(&not_rows, 1).err(), Some(BankError::NotAnArray));
    assert_eq!(parse_kanji_bank(&not_rows, 1).err(), Some(BankError::NotAnArray));
    assert_eq!(parse_term_meta_bank(&not_rows, 1).err(), Some(BankError::NotAnArray));
    assert_eq!(parse_tag_bank(&not_rows, 1).err(), Some(BankError::NotAnArray));
    // A one-row term bank parses; a kanji bank of one empty row gives no rows.
    let term = arr(vec![arr(vec![s("ok"), s("よみ"), num(0), num(0), num(0)], "")], "");
    assert!(parse_term_bank(&term, 1).is_ok());
    let kanji = arr(vec![arr(vec![], "[]")], "[[]]");
    assert!(parse_kanji_bank(&kanji, 1).unwrap().is_empty());
}
