//! The shapes a dictionary lookup is shown in: definition nodes, numbered
//! senses grouped under their tags, headwords and readings, the
//! deinflection hop that reached a term, and one formatted entry per
//! dictionary.
use vstd::prelude::*;
use crate::dictionary::DictionaryEntry;

verus! {

/// An example box: a Japanese/English pair, a set of parts (Japanese then
/// English), or general structured content.
#[derive(Debug)]
pub struct ExampleNode {
    pub japanese: Option<String>,
    pub english: Option<String>,
    pub content: Vec<DefinitionNode>,
    pub parts: Vec<Vec<DefinitionNode>>,
}

/// One displayable piece of a definition.
#[derive(Debug)]
pub enum DefinitionNode {
    Text(String),
    Ruby { term: String, reading: String },
    Tag { text: String },
    /// The closing source line of an entry.
    Citation(String),
    Example(ExampleNode),
    ListBlock { items: Vec<Vec<DefinitionNode>>, list_type: Option<String> },
    Table { rows: Vec<Vec<Vec<DefinitionNode>>> },
    /// A boxed block of extra information; not inline means it starts its
    /// own line.
    Group { nodes: Vec<DefinitionNode>, is_inline: bool },
}

/// A numbered sense.
#[derive(Debug)]
pub struct FormattedSense {
    pub index: usize,
    pub nodes: Vec<DefinitionNode>,
}

/// Senses that share their tags.
#[derive(Debug)]
pub struct FormattedSenseGroup {
    pub tags: Vec<String>,
    pub senses: Vec<FormattedSense>,
    /// Groups of other forms are shown unnumbered.
    pub is_forms: bool,
    /// Group information shown before the senses.
    pub header: Vec<DefinitionNode>,
    /// Blocks shown after the senses, unnumbered.
    pub trailing: Vec<DefinitionNode>,
}

/// A headword with its kanji readings.
#[derive(Debug, Clone)]
pub struct FormattedHeadword {
    pub kanji: String,
    pub onyomi: Option<String>,
    pub kunyomi: Option<String>,
}

/// Everything shown under one reading.
#[derive(Debug)]
pub struct FormattedReadingGroup {
    pub reading: String,
    pub headwords: Vec<FormattedHeadword>,
    pub sense_groups: Vec<FormattedSenseGroup>,
    pub is_kanji_entry: bool,
    /// Downstep positions from a pitch dictionary, empty when none.
    pub pitch_positions: Vec<i32>,
    /// False when an earlier reading already showed the same senses: the
    /// headword is still shown, the senses are not.
    pub render_senses: bool,
}

/// The deinflection or redirect hop that reached a term.
#[derive(Debug, Clone)]
pub struct DeinflectionChain {
    pub surface: String,
    /// The rule tags of the hop.
    pub steps: Vec<String>,
}

/// A looked-up term as shown, for one dictionary.
#[derive(Debug)]
pub struct FormattedEntry {
    pub term: String,
    pub reading_groups: Vec<FormattedReadingGroup>,
    pub deinflection: Option<DeinflectionChain>,
    pub dictionary_name: Option<String>,
}

/// A matched term with its stored entries and the hop that reached it.
#[derive(Debug, Clone)]
pub struct TermMatch {
    pub term: String,
    pub entries: Vec<DictionaryEntry>,
    pub chain: Option<DeinflectionChain>,
}

/// The result of a dictionary lookup: the formatted matches and the length
/// of the longest matched text.
pub struct LookupResult {
    pub matches: std::rc::Rc<Vec<FormattedEntry>>,
    pub max_len: usize,
}

} // verus!
