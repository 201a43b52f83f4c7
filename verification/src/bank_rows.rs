//! Yomitan bank documents turned into dictionary rows, the declared title of
//! an `index.json`, and the pitch-accent payloads stored with term-meta
//! rows. Documents arrive parsed: each value carries its shape and its
//! compact JSON text.
use vstd::prelude::*;
use crate::dictionary::{DictionaryEntry, DictionaryTag, EntryView, TagView};
use crate::text::chars_of;

verus! {

/// The shape of a parsed JSON value.
#[derive(Debug)]
pub enum JsonNode {
    Null,
    Bool(bool),
    /// A number, with its value when it is an integer that fits in an `i64`.
    Number(Option<i64>),
    Str(String),
    Array(Vec<JsonValue>),
    /// An object's members in document order, each key once.
    Object(Vec<(String, JsonValue)>),
}

/// A parsed JSON value and its compact JSON text.
#[derive(Debug)]
pub struct JsonValue {
    pub node: JsonNode,
    pub json: String,
}

/// Why a bank document cannot be read.
#[derive(Debug, Clone, Copy, PartialEq, Eq, Structural)]
pub enum BankError {
    /// The document is not a JSON array of rows.
    NotAnArray,
}

/// The string a value holds, if it is a string.
pub open spec fn str_of(v: JsonValue) -> Option<Seq<char>> {
    match v.node {
        JsonNode::Str(s) => Some(s@),
        _ => None,
    }
}

/// The integer a value holds, if it is a number that is an `i64`.
pub open spec fn int_of(v: JsonValue) -> Option<i64> {
    match v.node {
        JsonNode::Number(x) => x,
        _ => None,
    }
}

/// The value of the first member named `key`.
pub open spec fn member(fields: Seq<(String, JsonValue)>, key: Seq<char>) -> Option<JsonValue>
    decreases fields.len(),
{
    if fields.len() == 0 {
        None
    } else if fields[0].0@ == key {
        Some(fields[0].1)
    } else {
        member(fields.drop_first(), key)
    }
}

/// The value of member `key` when `v` is an object that has one.
pub open spec fn get(v: JsonValue, key: Seq<char>) -> Option<JsonValue> {
    match v.node {
        JsonNode::Object(fields) => member(fields@, key),
        _ => None,
    }
}

/// The string member `key` of `v`, or the empty string.
pub open spec fn str_member_or_empty(v: JsonValue, key: Seq<char>) -> Seq<char> {
    match get(v, key) {
        Some(m) => match str_of(m) {
            Some(s) => s,
            None => Seq::empty(),
        },
        None => Seq::empty(),
    }
}

/// The string items of `items`, in order.
pub open spec fn string_items(items: Seq<JsonValue>) -> Seq<Seq<char>>
    decreases items.len(),
{
    if items.len() == 0 {
        Seq::empty()
    } else {
        let rest = string_items(items.drop_last());
        match str_of(items.last()) {
            Some(s) => rest.push(s),
            None => rest,
        }
    }
}

/// `parts` joined with single spaces.
pub open spec fn join_spaced(parts: Seq<Seq<char>>) -> Seq<char>
    decreases parts.len(),
{
    if parts.len() == 0 {
        Seq::empty()
    } else if parts.len() == 1 {
        parts[0]
    } else {
        join_spaced(parts.drop_last()) + seq![' '] + parts.last()
    }
}

/// A string-or-array field as flat text: a string is itself, an array its
/// string items joined with one space, null is empty, and anything else its
/// JSON text.
pub open spec fn flat_text(v: JsonValue) -> Seq<char> {
    match v.node {
        JsonNode::Str(s) => s@,
        JsonNode::Array(items) => join_spaced(string_items(items@)),
        JsonNode::Null => Seq::empty(),
        _ => v.json@,
    }
}

/// The string a value holds, if it is a string.
fn as_str(v: &JsonValue) -> (r: Option<&String>)
    ensures
        match r {
            Some(s) => str_of(*v) == Some(s@),
            None => str_of(*v) is None,
        },
{
    match &v.node {
        JsonNode::Str(s) => Some(s),
        _ => None,
    }
}

/// The integer a value holds, if it is an `i64` number.
fn as_i64(v: &JsonValue) -> (r: Option<i64>)
    ensures
        r == int_of(*v),
{
    match &v.node {
        JsonNode::Number(x) => *x,
        _ => None,
    }
}

/// The value of member `key` when `v` is an object that has one.
fn get_member<'a>(v: &'a JsonValue, key: &str) -> (r: Option<&'a JsonValue>)
    ensures
        match r {
            Some(m) => get(*v, key@) == Some(*m),
            None => get(*v, key@) is None,
        },
{
    match &v.node {
        JsonNode::Object(fields) => {
            let k = chars_of(key);
            let mut i: usize = 0;
            proof {
                assert(fields@.skip(0) =~= fields@);
            }
            while i < fields.len()
                invariant
                    i <= fields.len(),
                    k@ == key@,
                    get(*v, key@) == member(fields@, key@),
                    member(fields@, key@) == member(fields@.skip(i as int), key@),
                decreases fields.len() - i,
            {
                let name = chars_of(fields[i].0.as_str());
                proof {
                    assert(fields@.skip(i as int).drop_first() =~= fields@.skip(i + 1));
                    assert(fields@.skip(i as int)[0] == fields@[i as int]);
                }
                if crate::text::chars_equal(&name, &k) {
                    proof {
                        assert(fields@.skip(i as int)[0].0@ == key@);
                        assert(member(fields@.skip(i as int), key@) == Some(fields@[i as int].1));
                    }
                    return Some(&fields[i].1);
                }
                i += 1;
            }
            proof {
                assert(fields@.skip(i as int).len() == 0);
            }
            None
        },
        _ => None,
    }
}

/// The string member `key` of `v`, or the empty string.
fn str_member(v: &JsonValue, key: &str) -> (r: String)
    ensures
        r@ == str_member_or_empty(*v, key@),
{
    match get_member(v, key) {
        Some(m) => match as_str(m) {
            Some(s) => s.clone(),
            None => String::new(),
        },
        None => String::new(),
    }
}

/// A string-or-array field as flat text (see [`flat_text`]).
pub fn value_to_string(value: &JsonValue) -> (r: String)
    ensures
        r@ == flat_text(*value),
{
    match &value.node {
        JsonNode::Str(s) => s.clone(),
        JsonNode::Array(items) => {
            let mut out = String::new();
            let mut any = false;
            let mut i: usize = 0;
            while i < items.len()
                invariant
                    i <= items.len(),
                    any == (string_items(items@.take(i as int)).len() > 0),
                    out@ == join_spaced(string_items(items@.take(i as int))),
                decreases items.len() - i,
            {
                proof {
                    assert(items@.take(i + 1).drop_last() =~= items@.take(i as int));
                    assert(items@.take(i + 1).last() == items@[i as int]);
                }
                match as_str(&items[i]) {
                    Some(s) => {
                        let ghost parts = string_items(items@.take(i as int));
                        if any {
                            out.append(" ");
                            proof {
                                reveal_strlit(" ");
                            }
                        }
                        out.append(s.as_str());
                        proof {
                            let p2 = parts.push(s@);
                            assert(p2.drop_last() =~= parts);
                            if !any {
                                assert(parts.len() == 0);
                                assert(join_spaced(p2) == s@);
                                assert(out@ =~= s@);
                            } else {
                                assert(out@ =~= join_spaced(parts) + seq![' '] + s@);
                            }
                        }
                        any = true;
                    },
                    None => {},
                }
                i += 1;
            }
            proof {
                assert(items@.take(items.len() as int) =~= items@);
            }
            out
        },
        JsonNode::Null => String::new(),
        _ => value.json.clone(),
    }
}

/// An empty-string option collapses to `None`.
pub open spec fn nonempty(s: Seq<char>) -> Option<Seq<char>> {
    if s.len() == 0 {
        None
    } else {
        Some(s)
    }
}

/// The entry a term-bank row gives: a row is an array of at least five
/// fields whose first two (term, reading) are strings; the rules are the
/// tags and rules fields as flat text joined by ` | `, followed by the
/// term tags when there are any; the definitions are the sixth field's JSON
/// text.
pub open spec fn term_row(row: JsonValue, dictionary_id: i64) -> Option<EntryView> {
    match row.node {
        JsonNode::Array(items) => {
            let a = items@;
            if a.len() >= 5 && str_of(a[0]) is Some && str_of(a[1]) is Some {
                let tags1 = flat_text(a[2]);
                let rules = flat_text(a[3]);
                let popularity = match int_of(a[4]) {
                    Some(x) => x,
                    None => 0,
                } as i32;
                let definitions = if a.len() > 5 {
                    a[5].json@
                } else {
                    Seq::empty()
                };
                let tags2 = if a.len() > 7 {
                    flat_text(a[7])
                } else {
                    Seq::empty()
                };
                let combined = tags1 + " | "@ + rules;
                let combined = if tags2.len() == 0 {
                    combined
                } else {
                    combined + " | "@ + tags2
                };
                Some(
                    EntryView {
                        id: 0,
                        kanji: str_of(a[0]).unwrap(),
                        reading: str_of(a[1]).unwrap(),
                        definitions,
                        rules: combined,
                        popularity,
                        dictionary_id,
                        onyomi: None,
                        kunyomi: None,
                        jlpt: None,
                    },
                )
            } else {
                None
            }
        },
        _ => None,
    }
}

/// The entry a kanji-bank row gives: an array of at least four fields
/// (character, on'yomi, kun'yomi, grade) read as flat text, the definitions
/// from the fifth, the JLPT level from the sixth when it is an object.
pub open spec fn kanji_row(row: JsonValue, dictionary_id: i64) -> Option<EntryView> {
    match row.node {
        JsonNode::Array(items) => {
            let a = items@;
            if a.len() >= 4 {
                let onyomi = flat_text(a[1]);
                let kunyomi = flat_text(a[2]);
                let definitions = if a.len() > 4 {
                    a[4].json@
                } else {
                    Seq::empty()
                };
                let jlpt = if a.len() > 5 {
                    str_member_or_empty(a[5], "jlpt"@)
                } else {
                    Seq::empty()
                };
                Some(
                    EntryView {
                        id: 0,
                        kanji: flat_text(a[0]),
                        reading: onyomi,
                        definitions,
                        rules: "grade:"@ + flat_text(a[3]),
                        popularity: 0,
                        dictionary_id,
                        onyomi: nonempty(onyomi),
                        kunyomi: nonempty(kunyomi),
                        jlpt: nonempty(jlpt),
                    },
                )
            } else {
                None
            }
        },
        _ => None,
    }
}

/// The entry a term-meta row gives: only `[term, "pitch", payload]` rows
/// with a non-empty term and a non-empty `reading` in the payload; the
/// payload's JSON text is kept as the definitions.
pub open spec fn meta_row(row: JsonValue, dictionary_id: i64) -> Option<EntryView> {
    match row.node {
        JsonNode::Array(items) => {
            let a = items@;
            if a.len() >= 3 {
                let term = match str_of(a[0]) {
                    Some(s) => s,
                    None => Seq::empty(),
                };
                let kind = match str_of(a[1]) {
                    Some(s) => s,
                    None => Seq::empty(),
                };
                let reading = str_member_or_empty(a[2], "reading"@);
                if kind == "pitch"@ && term.len() > 0 && reading.len() > 0 {
                    Some(
                        EntryView {
                            id: 0,
                            kanji: term,
                            reading,
                            definitions: a[2].json@,
                            rules: Seq::empty(),
                            popularity: 0,
                            dictionary_id,
                            onyomi: None,
                            kunyomi: None,
                            jlpt: None,
                        },
                    )
                } else {
                    None
                }
            } else {
                None
            }
        },
        _ => None,
    }
}

/// The tag a tag-bank row gives: an array of at least five fields (name,
/// category, order, notes, popularity); missing strings are empty and
/// missing numbers zero.
pub open spec fn tag_row(row: JsonValue, dictionary_id: i64) -> Option<TagView> {
    match row.node {
        JsonNode::Array(items) => {
            let a = items@;
            if a.len() >= 5 {
                Some(
                    TagView {
                        id: 0,
                        name: match str_of(a[0]) {
                            Some(s) => s,
                            None => Seq::empty(),
                        },
                        category: match str_of(a[1]) {
                            Some(s) => s,
                            None => Seq::empty(),
                        },
                        order: match int_of(a[2]) {
                            Some(x) => x,
                            None => 0,
                        } as i32,
                        notes: match str_of(a[3]) {
                            Some(s) => s,
                            None => Seq::empty(),
                        },
                        popularity: match int_of(a[4]) {
                            Some(x) => x,
                            None => 0,
                        } as i32,
                        dictionary_id,
                    },
                )
            } else {
                None
            }
        },
        _ => None,
    }
}


/// The entries of a row sequence under a row rule, rows that give none
/// skipped.
pub open spec fn term_rows(rows: Seq<JsonValue>, dictionary_id: i64) -> Seq<EntryView>
    decreases rows.len(),
{
    if rows.len() == 0 {
        Seq::empty()
    } else {
        let rest = term_rows(rows.drop_last(), dictionary_id);
        match term_row(rows.last(), dictionary_id) {
            Some(e) => rest.push(e),
            None => rest,
        }
    }
}

pub open spec fn kanji_rows(rows: Seq<JsonValue>, dictionary_id: i64) -> Seq<EntryView>
    decreases rows.len(),
{
    if rows.len() == 0 {
        Seq::empty()
    } else {
        let rest = kanji_rows(rows.drop_last(), dictionary_id);
        match kanji_row(rows.last(), dictionary_id) {
            Some(e) => rest.push(e),
            None => rest,
        }
    }
}

pub open spec fn meta_rows(rows: Seq<JsonValue>, dictionary_id: i64) -> Seq<EntryView>
    decreases rows.len(),
{
    if rows.len() == 0 {
        Seq::empty()
    } else {
        let rest = meta_rows(rows.drop_last(), dictionary_id);
        match meta_row(rows.last(), dictionary_id) {
            Some(e) => rest.push(e),
            None => rest,
        }
    }
}

pub open spec fn tag_rows(rows: Seq<JsonValue>, dictionary_id: i64) -> Seq<TagView>
    decreases rows.len(),
{
    if rows.len() == 0 {
        Seq::empty()
    } else {
        let rest = tag_rows(rows.drop_last(), dictionary_id);
        match tag_row(rows.last(), dictionary_id) {
            Some(t) => rest.push(t),
            None => rest,
        }
    }
}

/// The plain values of a list of entries.
pub open spec fn entries_view(v: Seq<DictionaryEntry>) -> Seq<EntryView> {
    v.map_values(|e: DictionaryEntry| e@)
}

/// The plain values of a list of tags.
pub open spec fn tags_view(v: Seq<DictionaryTag>) -> Seq<TagView> {
    v.map_values(|t: DictionaryTag| t@)
}

/// An optional entry matches an optional view.
pub open spec fn entry_matches(r: Option<DictionaryEntry>, v: Option<EntryView>) -> bool {
    match r {
        Some(e) => v == Some(e@),
        None => v is None,
    }
}

/// `s` with `sep` and `t` appended.
fn joined(s: String, sep: &str, t: &String) -> (r: String)
    ensures
        r@ == s@ + sep@ + t@,
{
    let mut out = s;
    out.append(sep);
    out.append(t.as_str());
    out
}

/// The non-empty string, or `None`.
fn nonempty_string(s: String) -> (r: Option<String>)
    ensures
        opt_eq(r, nonempty(s@)),
{
    if s.as_str().is_empty() {
        None
    } else {
        Some(s)
    }
}

pub open spec fn opt_eq(r: Option<String>, v: Option<Seq<char>>) -> bool {
    match r {
        Some(s) => v == Some(s@),
        None => v is None,
    }
}

/// The string a value holds, or the empty string.
fn str_or_empty(v: &JsonValue) -> (r: String)
    ensures
        r@ == match str_of(*v) {
            Some(s) => s,
            None => Seq::<char>::empty(),
        },
{
    match as_str(v) {
        Some(s) => s.clone(),
        None => String::new(),
    }
}

/// The entry one term-bank row gives (see [`term_row`]).
fn term_entry(row: &JsonValue, dictionary_id: i64) -> (r: Option<DictionaryEntry>)
    ensures
        entry_matches(r, term_row(*row, dictionary_id)),
{
    let a = match &row.node {
        JsonNode::Array(items) => items,
        _ => {
            return None;
        },
    };
    if a.len() < 5 {
        return None;
    }
    let kanji = match as_str(&a[0]) {
        Some(s) => s.clone(),
        None => {
            return None;
        },
    };
    let reading = match as_str(&a[1]) {
        Some(s) => s.clone(),
        None => {
            return None;
        },
    };
    let tags1 = value_to_string(&a[2]);
    let rules = value_to_string(&a[3]);
    let pop: i64 = match as_i64(&a[4]) {
        Some(x) => x,
        None => 0,
    };
    let popularity = pop as i32;
    let definitions = if a.len() > 5 {
        a[5].json.clone()
    } else {
        String::new()
    };
    let tags2 = if a.len() > 7 {
        value_to_string(&a[7])
    } else {
        String::new()
    };
    let combined = joined(tags1, " | ", &rules);
    let combined = if tags2.as_str().is_empty() {
        combined
    } else {
        joined(combined, " | ", &tags2)
    };
    Some(DictionaryEntry::new(kanji, reading, definitions, combined, popularity, dictionary_id))
}

/// The entry one kanji-bank row gives (see [`kanji_row`]).
fn kanji_entry(row: &JsonValue, dictionary_id: i64) -> (r: Option<DictionaryEntry>)
    ensures
        entry_matches(r, kanji_row(*row, dictionary_id)),
{
    let a = match &row.node {
        JsonNode::Array(items) => items,
        _ => {
            return None;
        },
    };
    if a.len() < 4 {
        return None;
    }
    let kanji = value_to_string(&a[0]);
    let onyomi = value_to_string(&a[1]);
    let kunyomi = value_to_string(&a[2]);
    let grade = value_to_string(&a[3]);
    let definitions = if a.len() > 4 {
        a[4].json.clone()
    } else {
        String::new()
    };
    let jlpt = if a.len() > 5 {
        str_member(&a[5], "jlpt")
    } else {
        String::new()
    };
    let rules = joined(String::new(), "grade:", &grade);
    proof {
        assert(rules@ =~= "grade:"@ + grade@);
    }
    let reading = onyomi.clone();
    Some(
        DictionaryEntry {
            id: 0,
            kanji,
            reading,
            definitions,
            rules,
            popularity: 0,
            dictionary_id,
            onyomi: nonempty_string(onyomi),
            kunyomi: nonempty_string(kunyomi),
            jlpt: nonempty_string(jlpt),
        },
    )
}

/// The entry one term-meta row gives (see [`meta_row`]).
fn meta_entry(row: &JsonValue, dictionary_id: i64) -> (r: Option<DictionaryEntry>)
    ensures
        entry_matches(r, meta_row(*row, dictionary_id)),
{
    let a = match &row.node {
        JsonNode::Array(items) => items,
        _ => {
            return None;
        },
    };
    if a.len() < 3 {
        return None;
    }
    let term = str_or_empty(&a[0]);
    let kind = chars_of(str_or_empty(&a[1]).as_str());
    let pitch = chars_of("pitch");
    let reading = str_member(&a[2], "reading");
    if !crate::text::chars_equal(&kind, &pitch) || term.as_str().is_empty() {
        return None;
    }
    if reading.as_str().is_empty() {
        return None;
    }
    Some(DictionaryEntry::new(term, reading, a[2].json.clone(), String::new(), 0, dictionary_id))
}

/// The tag one tag-bank row gives (see [`tag_row`]).
fn tag_entry(row: &JsonValue, dictionary_id: i64) -> (r: Option<DictionaryTag>)
    ensures
        match r {
            Some(t) => tag_row(*row, dictionary_id) == Some(t@),
            None => tag_row(*row, dictionary_id) is None,
        },
{
    let a = match &row.node {
        JsonNode::Array(items) => items,
        _ => {
            return None;
        },
    };
    if a.len() < 5 {
        return None;
    }
    let order: i64 = match as_i64(&a[2]) {
        Some(x) => x,
        None => 0,
    };
    let popularity: i64 = match as_i64(&a[4]) {
        Some(x) => x,
        None => 0,
    };
    Some(
        DictionaryTag {
            id: 0,
            name: str_or_empty(&a[0]),
            category: str_or_empty(&a[1]),
            order: order as i32,
            notes: str_or_empty(&a[3]),
            popularity: popularity as i32,
            dictionary_id,
        },
    )
}

/// Parse a term bank into dictionary entries: a document that is not an
/// array is an error; rows without the required shape, or whose term or
/// reading is not a string, are skipped.
pub fn parse_term_bank(doc: &JsonValue, dictionary_id: i64) -> (r: Result<Vec<DictionaryEntry>, BankError>)
    ensures
        match doc.node {
            JsonNode::Array(rows) => r matches Ok(v) && entries_view(v@) == term_rows(rows@, dictionary_id),
            _ => r == Err::<Vec<DictionaryEntry>, BankError>(BankError::NotAnArray),
        },
{
    let rows = match &doc.node {
        JsonNode::Array(items) => items,
        _ => {
            return Err(BankError::NotAnArray);
        },
    };
    let mut out: Vec<DictionaryEntry> = Vec::new();
    let mut i: usize = 0;
    while i < rows.len()
        invariant
            i <= rows.len(),
            entries_view(out@) == term_rows(rows@.take(i as int), dictionary_id),
        decreases rows.len() - i,
    {
        proof {
            assert(rows@.take(i + 1).drop_last() =~= rows@.take(i as int));
            assert(rows@.take(i + 1).last() == rows@[i as int]);
        }
        match term_entry(&rows[i], dictionary_id) {
            Some(e) => {
                let ghost before = out@;
                out.push(e);
                proof {
                    assert(entries_view(out@) =~= entries_view(before).push(e@));
                }
            },
            None => {},
        }
        i += 1;
    }
    proof {
        assert(rows@.take(rows.len() as int) =~= rows@);
    }
    Ok(out)
}

/// Parse a kanji bank into dictionary entries (see [`kanji_row`]).
pub fn parse_kanji_bank(doc: &JsonValue, dictionary_id: i64) -> (r: Result<Vec<DictionaryEntry>, BankError>)
    ensures
        match doc.node {
            JsonNode::Array(rows) => r matches Ok(v) && entries_view(v@) == kanji_rows(rows@, dictionary_id),
            _ => r == Err::<Vec<DictionaryEntry>, BankError>(BankError::NotAnArray),
        },
{
    let rows = match &doc.node {
        JsonNode::Array(items) => items,
        _ => {
            return Err(BankError::NotAnArray);
        },
    };
    let mut out: Vec<DictionaryEntry> = Vec::new();
    let mut i: usize = 0;
    while i < rows.len()
        invariant
            i <= rows.len(),
            entries_view(out@) == kanji_rows(rows@.take(i as int), dictionary_id),
        decreases rows.len() - i,
    {
        proof {
            assert(rows@.take(i + 1).drop_last() =~= rows@.take(i as int));
            assert(rows@.take(i + 1).last() == rows@[i as int]);
        }
        match kanji_entry(&rows[i], dictionary_id) {
            Some(e) => {
                let ghost before = out@;
                out.push(e);
                proof {
                    assert(entries_view(out@) =~= entries_view(before).push(e@));
                }
            },
            None => {},
        }
        i += 1;
    }
    proof {
        assert(rows@.take(rows.len() as int) =~= rows@);
    }
    Ok(out)
}

/// Parse the pitch rows of a term-meta bank into dictionary entries (see
/// [`meta_row`]); frequency and other rows are skipped.
pub fn parse_term_meta_bank(doc: &JsonValue, dictionary_id: i64) -> (r: Result<Vec<DictionaryEntry>, BankError>)
    ensures
        match doc.node {
            JsonNode::Array(rows) => r matches Ok(v) && entries_view(v@) == meta_rows(rows@, dictionary_id),
            _ => r == Err::<Vec<DictionaryEntry>, BankError>(BankError::NotAnArray),
        },
{
    let rows = match &doc.node {
        JsonNode::Array(items) => items,
        _ => {
            return Err(BankError::NotAnArray);
        },
    };
    let mut out: Vec<DictionaryEntry> = Vec::new();
    let mut i: usize = 0;
    while i < rows.len()
        invariant
            i <= rows.len(),
            entries_view(out@) == meta_rows(rows@.take(i as int), dictionary_id),
        decreases rows.len() - i,
    {
        proof {
            assert(rows@.take(i + 1).drop_last() =~= rows@.take(i as int));
            assert(rows@.take(i + 1).last() == rows@[i as int]);
        }
        match meta_entry(&rows[i], dictionary_id) {
            Some(e) => {
                let ghost before = out@;
                out.push(e);
                proof {
                    assert(entries_view(out@) =~= entries_view(before).push(e@));
                }
            },
            None => {},
        }
        i += 1;
    }
    proof {
        assert(rows@.take(rows.len() as int) =~= rows@);
    }
    Ok(out)
}

/// Parse a tag bank into dictionary tags (see [`tag_row`]).
pub fn parse_tag_bank(doc: &JsonValue, dictionary_id: i64) -> (r: Result<Vec<DictionaryTag>, BankError>)
    ensures
        match doc.node {
            JsonNode::Array(rows) => r matches Ok(v) && tags_view(v@) == tag_rows(rows@, dictionary_id),
            _ => r == Err::<Vec<DictionaryTag>, BankError>(BankError::NotAnArray),
        },
{
    let rows = match &doc.node {
        JsonNode::Array(items) => items,
        _ => {
            return Err(BankError::NotAnArray);
        },
    };
    let mut out: Vec<DictionaryTag> = Vec::new();
    let mut i: usize = 0;
    while i < rows.len()
        invariant
            i <= rows.len(),
            tags_view(out@) == tag_rows(rows@.take(i as int), dictionary_id),
        decreases rows.len() - i,
    {
        proof {
            assert(rows@.take(i + 1).drop_last() =~= rows@.take(i as int));
            assert(rows@.take(i + 1).last() == rows@[i as int]);
        }
        match tag_entry(&rows[i], dictionary_id) {
            Some(t) => {
                let ghost before = out@;
                out.push(t);
                proof {
                    assert(tags_view(out@) =~= tags_view(before).push(t@));
                }
            },
            None => {},
        }
        i += 1;
    }
    proof {
        assert(rows@.take(rows.len() as int) =~= rows@);
    }
    Ok(out)
}

/// The declared title of an `index.json` document: its `title` member when
/// the document is an object and the member a string.
pub fn parse_index_title(doc: &JsonValue) -> (r: Option<String>)
    ensures
        opt_eq(r, match get(*doc, "title"@) {
            Some(t) => str_of(t),
            None => None,
        }),
{
    match get_member(doc, "title") {
        Some(t) => match as_str(t) {
            Some(s) => Some(s.clone()),
            None => None,
        },
        None => None,
    }
}


/// The pitch entries of a stored pitch payload
/// (`{"reading": …, "pitches": [{"position": N}, …]}`): the `pitches` array
/// when the payload is an object with both members.
pub open spec fn pitch_items(doc: JsonValue) -> Option<Seq<JsonValue>> {
    match get(doc, "pitches"@) {
        Some(p) => match p.node {
            JsonNode::Array(items) => if get(doc, "reading"@) is Some {
                Some(items@)
            } else {
                None
            },
            _ => None,
        },
        None => None,
    }
}

/// The `position` of each pitch entry that has an integer one, as `i32`.
pub open spec fn positions(items: Seq<JsonValue>) -> Seq<i32>
    decreases items.len(),
{
    if items.len() == 0 {
        Seq::empty()
    } else {
        let rest = positions(items.drop_last());
        match get(items.last(), "position"@) {
            Some(v) => match int_of(v) {
                Some(x) => rest.push(x as i32),
                None => rest,
            },
            None => rest,
        }
    }
}

/// Strictly increasing.
pub open spec fn increasing(v: Seq<i32>) -> bool {
    forall|a: int, b: int| 0 <= a < b < v.len() ==> v[a] < v[b]
}

/// Insert `x` into the increasing `v` unless it is already there.
fn insert_unique(v: &mut Vec<i32>, x: i32)
    requires
        increasing(old(v)@),
    ensures
        increasing(final(v)@),
        forall|y: i32| final(v)@.contains(y) <==> (old(v)@.contains(y) || y == x),
{
    let mut p: usize = 0;
    while p < v.len() && v[p] < x
        invariant
            p <= v.len(),
            v@ == old(v)@,
            forall|k: int| 0 <= k < p ==> v@[k] < x,
        decreases v.len() - p,
    {
        p += 1;
    }
    if p < v.len() && v[p] == x {
        proof {
            assert(v@[p as int] == x);
        }
        return;
    }
    let ghost before = v@;
    v.insert(p, x);
    proof {
        assert forall|a: int, b: int| 0 <= a < b < v@.len() implies v@[a] < v@[b] by {
            if b < p {
                assert(v@[a] == before[a] && v@[b] == before[b]);
            } else if b == p {
                assert(v@[a] == before[a]);
            } else if a < p {
                assert(v@[a] == before[a] && v@[b] == before[b - 1]);
                assert(before[p as int] > x);
                if b - 1 > p {
                    assert(before[p as int] < before[b - 1]);
                }
            } else if a == p {
                assert(v@[b] == before[b - 1]);
                assert(before[p as int] > x);
                if b - 1 > p {
                    assert(before[p as int] < before[b - 1]);
                }
            } else {
                assert(v@[a] == before[a - 1] && v@[b] == before[b - 1]);
            }
        }
        assert(before == old(v)@);
        assert forall|y: i32| #[trigger] v@.contains(y) <==> (old(v)@.contains(y) || y == x) by {
            if before.contains(y) {
                let k = choose|k: int| 0 <= k < before.len() && before[k] == y;
                if k < p {
                    assert(v@[k] == y);
                } else {
                    assert(v@[k + 1] == y);
                }
            }
            if y == x {
                assert(v@[p as int] == x);
            }
            if v@.contains(y) {
                let k = choose|k: int| 0 <= k < v@.len() && v@[k] == y;
                if k < p {
                    assert(before[k] == y);
                } else if k > p {
                    assert(before[k - 1] == y);
                }
            }
        }
    }
}

/// Downstep positions from a stored pitch payload, sorted and without
/// repeats, or `None` when the payload is not pitch data (detection is by
/// shape: an object with both `reading` and a `pitches` array).
pub fn pitch_positions_of(doc: &JsonValue) -> (r: Option<Vec<i32>>)
    ensures
        match pitch_items(*doc) {
            Some(items) => r matches Some(v) && increasing(v@) && forall|y: i32| #[trigger] v@.contains(y)
                <==> positions(items).contains(y),
            None => r is None,
        },
{
    let pitches = match get_member(doc, "pitches") {
        Some(p) => p,
        None => {
            return None;
        },
    };
    let items = match &pitches.node {
        JsonNode::Array(items) => items,
        _ => {
            return None;
        },
    };
    match get_member(doc, "reading") {
        Some(_) => {},
        None => {
            return None;
        },
    }
    let mut out: Vec<i32> = Vec::new();
    let mut i: usize = 0;
    while i < items.len()
        invariant
            i <= items.len(),
            increasing(out@),
            forall|y: i32| #[trigger] out@.contains(y) <==> positions(items@.take(i as int)).contains(y),
        decreases items.len() - i,
    {
        proof {
            assert(items@.take(i + 1).drop_last() =~= items@.take(i as int));
            assert(items@.take(i + 1).last() == items@[i as int]);
        }
        let ghost before = out@;
        match get_member(&items[i], "position") {
            Some(v) => match as_i64(v) {
                Some(x) => {
                    insert_unique(&mut out, x as i32);
                    proof {
                        let ps = positions(items@.take(i as int));
                        assert forall|y: i32| #[trigger] out@.contains(y) <==> ps.push(x as i32).contains(y) by {
                            if y == x as i32 {
                                assert(ps.push(x as i32)[ps.len() as int] == y);
                            }
                            if ps.contains(y) {
                                let k = choose|k: int| 0 <= k < ps.len() && ps[k] == y;
                                assert(ps.push(x as i32)[k] == y);
                            }
                            let pp = ps.push(x as i32);
                            if pp.contains(y) {
                                let k = choose|k: int| 0 <= k < pp.len() && pp[k] == y;
                                if k < ps.len() {
                                    assert(ps[k] == y);
                                }
                            }
                        }
                    }
                },
                None => {},
            },
            None => {},
        }
        i += 1;
    }
    proof {
        assert(items@.take(items.len() as int) =~= items@);
    }
    Some(out)
}

/// The reading of a stored pitch payload: its `reading` member when the
/// payload is an object and the member a string.
pub fn pitch_reading_of(doc: &JsonValue) -> (r: Option<String>)
    ensures
        opt_eq(r, match get(*doc, "reading"@) {
            Some(t) => str_of(t),
            None => None,
        }),
{
    match get_member(doc, "reading") {
        Some(t) => match as_str(t) {
            Some(s) => Some(s.clone()),
            None => None,
        },
        None => None,
    }
}

} // verus!
