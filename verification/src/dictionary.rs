//! Dictionary storage rows (entries, dictionary metadata, tags) and the
//! catalog's title-family match.
use vstd::prelude::*;
use crate::text::{chars_of, has_prefix, starts_with_chars, copy_range, chars_equal};

verus! {

/// A single dictionary entry (term or kanji).
#[derive(Debug, Clone)]
pub struct DictionaryEntry {
    pub id: i64,
    pub kanji: String,
    pub reading: String,
    /// The entry's definitions as JSON text.
    pub definitions: String,
    pub rules: String,
    pub popularity: i32,
    pub dictionary_id: i64,
    pub onyomi: Option<String>,
    pub kunyomi: Option<String>,
    pub jlpt: Option<String>,
}

/// Metadata for an imported dictionary.
#[derive(Debug, Clone)]
pub struct DictionaryMeta {
    pub id: i64,
    pub name: String,
    pub priority: i32,
    pub enabled: bool,
    /// True for dictionaries bundled with the application; written only after
    /// every bank of a bundled import has landed, so it doubles as the
    /// completion marker.
    pub built_in: bool,
    /// Catalog entry this dictionary was installed from, if any.
    pub catalog_id: Option<String>,
}

/// A tag from a dictionary tag bank.
#[derive(Debug, Clone)]
pub struct DictionaryTag {
    pub id: i64,
    pub name: String,
    pub category: String,
    pub order: i32,
    pub notes: String,
    pub popularity: i32,
    pub dictionary_id: i64,
}

/// A dictionary entry as plain values.
pub struct EntryView {
    pub id: i64,
    pub kanji: Seq<char>,
    pub reading: Seq<char>,
    pub definitions: Seq<char>,
    pub rules: Seq<char>,
    pub popularity: i32,
    pub dictionary_id: i64,
    pub onyomi: Option<Seq<char>>,
    pub kunyomi: Option<Seq<char>>,
    pub jlpt: Option<Seq<char>>,
}

/// The characters of an optional string.
pub open spec fn opt_view(s: Option<String>) -> Option<Seq<char>> {
    match s {
        Some(x) => Some(x@),
        None => None,
    }
}

impl View for DictionaryEntry {
    type V = EntryView;

    open spec fn view(&self) -> EntryView {
        EntryView {
            id: self.id,
            kanji: self.kanji@,
            reading: self.reading@,
            definitions: self.definitions@,
            rules: self.rules@,
            popularity: self.popularity,
            dictionary_id: self.dictionary_id,
            onyomi: opt_view(self.onyomi),
            kunyomi: opt_view(self.kunyomi),
            jlpt: opt_view(self.jlpt),
        }
    }
}

/// A dictionary tag as plain values.
pub struct TagView {
    pub id: i64,
    pub name: Seq<char>,
    pub category: Seq<char>,
    pub order: i32,
    pub notes: Seq<char>,
    pub popularity: i32,
    pub dictionary_id: i64,
}

impl View for DictionaryTag {
    type V = TagView;

    open spec fn view(&self) -> TagView {
        TagView {
            id: self.id,
            name: self.name@,
            category: self.category@,
            order: self.order,
            notes: self.notes@,
            popularity: self.popularity,
            dictionary_id: self.dictionary_id,
        }
    }
}

impl DictionaryEntry {
    /// A term entry: no id yet and no kanji readings or level.
    pub fn new(
        kanji: String,
        reading: String,
        definitions: String,
        rules: String,
        popularity: i32,
        dictionary_id: i64,
    ) -> (r: Self)
        ensures
            r.id == 0,
            r.kanji@ == kanji@,
            r.reading@ == reading@,
            r.definitions@ == definitions@,
            r.rules@ == rules@,
            r.popularity == popularity,
            r.dictionary_id == dictionary_id,
            r.onyomi is None,
            r.kunyomi is None,
            r.jlpt is None,
    {
        DictionaryEntry {
            id: 0,
            kanji,
            reading,
            definitions,
            rules,
            popularity,
            dictionary_id,
            onyomi: None,
            kunyomi: None,
            jlpt: None,
        }
    }
}

/// `name` is the title `family` itself or a bracketed revision of it
/// (`family [2026-08-11]`).
pub open spec fn in_family(name: Seq<char>, family: Seq<char>) -> bool {
    name == family || (has_prefix(name, family) && has_prefix(name.skip(family.len() as int), " ["@))
}

/// Whether `name` is the stable title `family` itself or a bracketed
/// revision of it — the catalog's "already installed" match, which does not
/// care which upstream revision a row carries. `_` and `%` in a family are
/// plain characters.
pub fn name_matches_family(name: &str, family: &str) -> (r: bool)
    ensures
        r == in_family(name@, family@),
{
    let n = chars_of(name);
    let f = chars_of(family);
    if chars_equal(&n, &f) {
        return true;
    }
    if !starts_with_chars(&n, &f) {
        return false;
    }
    let rest = copy_range(&n, f.len(), n.len());
    let mark = chars_of(" [");
    proof {
        assert(rest@ =~= n@.skip(f@.len() as int));
    }
    starts_with_chars(&rest, &mark)
}

} // verus!
