//! Pre-reform kana normalisation (旧仮名遣い): the orthography table and
//! the historical sound-change table, with the tab-separated text format
//! they are written in, plus mora splitting and pitch contours.
use vstd::prelude::*;
use crate::kana_tables::{
    copy_pairs, lemma_pair_lookup_some, lookup_pair, pair_lookup, KANA_AU, KANA_EU, KANA_HA,
    KANA_VARIANT_PAIRS,
};
use crate::text::{
    chars_of, copy_range, either_char, is_white_space, lemma_deep_view_chars, split_on, split_when,
    string_of, trim, trim_chars, trim_end, trim_start,
};

verus! {

/// No two rows of `t` share a key.
pub open spec fn keys_distinct<V>(t: Seq<(char, V)>) -> bool {
    forall|a: int, b: int| 0 <= a < b < t.len() ==> t[a].0 != t[b].0
}

/// Appending a row whose key is new keeps the keys distinct.
proof fn lemma_push_new_key<V>(t: Seq<(char, V)>, row: (char, V))
    requires
        keys_distinct(t),
        pair_lookup(t, row.0) is None,
    ensures
        keys_distinct(t.push(row)),
{
    lemma_pair_lookup_some(t, row.0);
    let u = t.push(row);
    assert forall|a: int, b: int| 0 <= a < b < u.len() implies u[a].0 != u[b].0 by {
        if b == t.len() {
            assert(u[a] == t[a]);
        } else {
            assert(u[a] == t[a] && u[b] == t[b]);
        }
    }
}

/// A field that must be exactly one character, counted in UTF-16 code units:
/// one character of the Basic Multilingual Plane. An empty, multi-character or supplementary-plane field is dropped.
pub open spec fn single_field(f: Seq<char>) -> Option<char> {
    if f.len() == 1 && f[0] as u32 <= 0xFFFF {
        Some(f[0])
    } else {
        None
    }
}

fn single_field_of(f: &Vec<char>) -> (r: Option<char>)
    ensures
        r == single_field(f@),
{
    if f.len() == 1 && f[0] as u32 <= 0xFFFF {
        Some(f[0])
    } else {
        None
    }
}

/// A field that must be exactly one UTF-16 code unit.
pub fn single_char_field(field: &str) -> (r: Option<char>)
    ensures
        r == single_field(field@),
{
    let f = chars_of(field);
    single_field_of(&f)
}

/// The lines of a text (split at `\n`; a `\r` before it is white space that
/// the row parsers trim away).
pub open spec fn text_lines(text: Seq<char>) -> Seq<Seq<char>> {
    split_when(text, either_char('\n', '\n'))
}

/// The tab-separated fields of a line.
pub open spec fn tab_fields(line: Seq<char>) -> Seq<Seq<char>> {
    split_when(line, either_char('\t', '\t'))
}

/// A line that carries a row: not blank and not a `#` comment once trimmed.
pub open spec fn is_row_line(l: Seq<char>) -> bool {
    l.len() > 0 && l[0] != '#'
}

fn row_line(l: &Vec<char>) -> (r: bool)
    ensures
        r == is_row_line(l@),
{
    l.len() > 0 && l[0] != '#'
}

// ---------------------------------------------------------------------------
// Orthography table
// ---------------------------------------------------------------------------

/// The orthography pair a line carries: a trimmed, non-comment line of two
/// tab-separated single-character fields whose sides differ.
pub open spec fn orthography_row(line: Seq<char>) -> Option<(char, char)> {
    let l = trim(line);
    let parts = tab_fields(l);
    if !is_row_line(l) || parts.len() != 2 {
        None
    } else {
        match (single_field(parts[0]), single_field(parts[1])) {
            (Some(v), Some(c)) => if v != c {
                Some((v, c))
            } else {
                None
            },
            _ => None,
        }
    }
}

/// The orthography table of a run of lines: each line's pair in order, the
/// first pair for a variant winning.
pub open spec fn orthography_rows(lines: Seq<Seq<char>>) -> Seq<(char, char)>
    decreases lines.len(),
{
    if lines.len() == 0 {
        Seq::empty()
    } else {
        let done = orthography_rows(lines.drop_last());
        match orthography_row(lines.last()) {
            Some(p) => if pair_lookup(done, p.0) is None {
                done.push(p)
            } else {
                done
            },
            None => done,
        }
    }
}

pub open spec fn orthography_parse(text: Seq<char>) -> Seq<(char, char)> {
    orthography_rows(text_lines(text))
}

/// The fields of a line once trimmed, when it carries a row at all.
fn row_fields(line: &Vec<char>) -> (r: Option<Vec<Vec<char>>>)
    ensures
        match r {
            Some(f) => is_row_line(trim(line@)) && f.deep_view() == tab_fields(trim(line@)),
            None => !is_row_line(trim(line@)),
        },
{
    let l = trim_chars(line);
    if !row_line(&l) {
        return None;
    }
    Some(split_on(&l, '\t', '\t'))
}

pub(crate) fn orthography_row_of(line: &Vec<char>) -> (r: Option<(char, char)>)
    ensures
        r == orthography_row(line@),
{
    match row_fields(line) {
        None => None,
        Some(parts) => {
            if parts.len() != 2 {
                return None;
            }
            proof {
                lemma_deep_view_chars(parts@[0]);
                lemma_deep_view_chars(parts@[1]);
            }
            match (single_field_of(&parts[0]), single_field_of(&parts[1])) {
                (Some(v), Some(c)) => if v != c {
                    Some((v, c))
                } else {
                    None
                },
                _ => None,
            }
        },
    }
}

/// Parsed pre-reform kana orthography table: the `variant<TAB>canonical`
/// pairs of the shipped `variants/kana_variants.txt` format. Lines are
/// trimmed, blank and `#` lines skipped, malformed lines (wrong field count, a
/// side that is not a single character) dropped, a pair whose sides are equal
/// skipped, and the first mapping for a variant wins.
#[derive(Debug)]
pub struct KanaOrthographyTable {
    canonical_by_variant: Vec<(char, char)>,
}

impl View for KanaOrthographyTable {
    type V = Seq<(char, char)>;

    /// The `(variant, canonical)` rows, one per distinct variant.
    closed spec fn view(&self) -> Seq<(char, char)> {
        self.canonical_by_variant@
    }
}

impl Clone for KanaOrthographyTable {
    fn clone(&self) -> (r: Self)
        ensures
            r@ == self@,
    {
        proof {
            use_type_invariant(self);
        }
        let rows = copy_pairs(self.canonical_by_variant.as_slice());
        KanaOrthographyTable { canonical_by_variant: rows }
    }
}

impl KanaOrthographyTable {
    #[verifier::type_invariant]
    closed spec fn wf(self) -> bool {
        keys_distinct(self.canonical_by_variant@)
    }

    /// The committed table (the shipped `variants/kana_variants.txt` rows).
    pub fn builtin() -> (r: Self)
        ensures
            r@ == KANA_VARIANT_PAIRS@,
    {
        let rows = copy_pairs(&KANA_VARIANT_PAIRS);
        proof {
            assert(keys_distinct(KANA_VARIANT_PAIRS@));
        }
        KanaOrthographyTable { canonical_by_variant: rows }
    }

    /// The identity table: [`canonical`](Self::canonical) returns its input.
    pub fn empty() -> (r: Self)
        ensures
            r@ == Seq::<(char, char)>::empty(),
    {
        KanaOrthographyTable { canonical_by_variant: Vec::new() }
    }

    /// Parse the committed text format (see the type docs).
    pub fn parse(text: &str) -> (r: Self)
        ensures
            r@ == orthography_parse(text@),
    {
        let chars = chars_of(text);
        let lines = split_on(&chars, '\n', '\n');
        let ghost ls = lines.deep_view();
        let mut rows: Vec<(char, char)> = Vec::new();
        let mut i: usize = 0;
        proof {
            assert(ls.take(0) =~= Seq::<Seq<char>>::empty());
        }
        while i < lines.len()
            invariant
                i <= lines.len(),
                ls == lines.deep_view(),
                rows@ == orthography_rows(ls.take(i as int)),
                keys_distinct(rows@),
            decreases lines.len() - i,
        {
            proof {
                lemma_deep_view_chars(lines@[i as int]);
                let t = ls.take(i + 1);
                assert(t.drop_last() =~= ls.take(i as int));
                assert(t.last() == lines@[i as int]@);
            }
            match orthography_row_of(&lines[i]) {
                Some(p) => {
                    if lookup_pair(rows.as_slice(), p.0).is_none() {
                        proof {
                            lemma_push_new_key(rows@, p);
                        }
                        rows.push(p);
                    }
                },
                None => {},
            }
            i += 1;
        }
        proof {
            assert(ls.take(lines.len() as int) =~= ls);
        }
        KanaOrthographyTable { canonical_by_variant: rows }
    }

    /// Number of distinct variants in this table.
    pub fn entry_count(&self) -> (r: usize)
        ensures
            r == self@.len(),
    {
        self.canonical_by_variant.len()
    }

    /// The modern form of `variant`, or `variant` itself when the table has no
    /// entry for it.
    pub fn canonical(&self, variant: char) -> (r: char)
        ensures
            r == canonical_of(self@, variant),
    {
        match lookup_pair(self.canonical_by_variant.as_slice(), variant) {
            Some(c) => c,
            None => variant,
        }
    }

    /// rewrite a lookup query from pre-reform orthography onto the modern
    /// form the dictionary keys on: each variant whose context rule
    /// ([`orthography_applies`]) holds becomes its canonical. Identity when
    /// nothing is a variant.
    pub fn modernise(&self, query: &str) -> (r: String)
        ensures
            r@ == modernise_spec(self@, query@),
    {
        let s = chars_of(query);
        let mut out: Vec<char> = Vec::new();
        let mut i: usize = 0;
        while i < s.len()
            invariant
                i <= s.len(),
                out@ =~= Seq::new(i as nat, |j: int| orthography_at(self@, s@, j)),
            decreases s.len() - i,
        {
            let c = s[i];
            let mapped = self.canonical(c);
            let e = if mapped == c {
                c
            } else {
                let prev = if i > 0 {
                    Some(s[i - 1])
                } else {
                    None
                };
                let next = if i + 1 < s.len() {
                    Some(s[i + 1])
                } else {
                    None
                };
                if orthography_applies(c, prev, next) {
                    mapped
                } else {
                    c
                }
            };
            out.push(e);
            i += 1;
        }
        string_of(&out)
    }
}

/// The canonical of `c` in table rows `t`, or `c` itself.
pub open spec fn canonical_of(t: Seq<(char, char)>, c: char) -> char {
    match pair_lookup(t, c) {
        Some(m) => m,
        None => c,
    }
}

/// Character `i` of `s`'s predecessor, if any.
pub open spec fn prev_of(s: Seq<char>, i: int) -> Option<char> {
    if i > 0 {
        Some(s[i - 1])
    } else {
        None
    }
}

/// Character `i` of `s`'s successor, if any.
pub open spec fn next_of(s: Seq<char>, i: int) -> Option<char> {
    if i + 1 < s.len() {
        Some(s[i + 1])
    } else {
        None
    }
}

/// Character `i` of the modernised query.
pub open spec fn orthography_at(t: Seq<(char, char)>, s: Seq<char>, i: int) -> char {
    let c = s[i];
    let m = canonical_of(t, c);
    if m != c && applies(c, prev_of(s, i), next_of(s, i)) {
        m
    } else {
        c
    }
}

pub open spec fn modernise_spec(t: Seq<(char, char)>, s: Seq<char>) -> Seq<char> {
    Seq::new(s.len(), |i: int| orthography_at(t, s, i))
}

pub const WAGYOU: [char; 4] = ['ゐ', 'ゑ', 'ヰ', 'ヱ'];

pub const DAKUGYOU: [char; 4] = ['ぢ', 'づ', 'ヂ', 'ヅ'];

pub const SOKUON: [char; 2] = ['つ', 'ツ'];

pub const YOON: [char; 6] = ['や', 'ゆ', 'よ', 'ヤ', 'ユ', 'ヨ'];

pub const DAKUTEN_PREV: [char; 4] = ['つ', 'ち', 'ツ', 'チ'];

pub const SOKUON_TRIGGERS: [char; 30] = [
    'た', 'ち', 'つ', 'て', 'と', 'さ', 'し', 'す', 'せ', 'そ', 'ぱ', 'ぴ', 'ぷ', 'ぺ', 'ぽ',
    'タ', 'チ', 'ツ', 'テ', 'ト', 'サ', 'シ', 'ス', 'セ', 'ソ', 'パ', 'ピ', 'プ', 'ペ', 'ポ',
];

pub const YOON_BASE: [char; 22] = [
    'き', 'し', 'ち', 'に', 'ひ', 'み', 'り', 'ぎ', 'じ', 'び', 'ぴ', 'キ', 'シ', 'チ', 'ニ', 'ヒ',
    'ミ', 'リ', 'ギ', 'ジ', 'ビ', 'ピ',
];

/// Whether `c` occurs in `set`.
pub fn char_in(set: &[char], c: char) -> (r: bool)
    ensures
        r == set@.contains(c),
{
    let mut i: usize = 0;
    while i < set.len()
        invariant
            i <= set.len(),
            forall|j: int| 0 <= j < i ==> set@[j] != c,
        decreases set.len() - i,
    {
        if set[i] == c {
            return true;
        }
        i += 1;
    }
    false
}

/// The context rules of the orthography table (`KanaOrthography.applies`):
/// ワ行 variants always fold; ダ行 variants fold unless they follow つ/ち (連濁);
/// the 促音 つ folds only before た行/さ行/ぱ行; the 拗音 や/ゆ/よ fold only after
/// an イ段 kana; nothing else folds.
pub open spec fn applies(variant: char, prev: Option<char>, next: Option<char>) -> bool {
    if WAGYOU@.contains(variant) {
        true
    } else if DAKUGYOU@.contains(variant) {
        match prev {
            Some(p) => !DAKUTEN_PREV@.contains(p),
            None => true,
        }
    } else if SOKUON@.contains(variant) {
        match next {
            Some(n) => SOKUON_TRIGGERS@.contains(n),
            None => false,
        }
    } else if YOON@.contains(variant) {
        match prev {
            Some(p) => YOON_BASE@.contains(p),
            None => false,
        }
    } else {
        false
    }
}

/// Whether a table pair applies in context (see `KanaOrthography.applies`).
pub fn orthography_applies(variant: char, prev: Option<char>, next: Option<char>) -> (r: bool)
    ensures
        r == applies(variant, prev, next),
{
    if char_in(&WAGYOU, variant) {
        true
    } else if char_in(&DAKUGYOU, variant) {
        match prev {
            Some(p) => !char_in(&DAKUTEN_PREV, p),
            None => true,
        }
    } else if char_in(&SOKUON, variant) {
        match next {
            Some(n) => char_in(&SOKUON_TRIGGERS, n),
            None => false,
        }
    } else if char_in(&YOON, variant) {
        match prev {
            Some(p) => char_in(&YOON_BASE, p),
            None => false,
        }
    } else {
        false
    }
}

/// The builtin orthography table, built for the free-function callers.
pub fn builtin_orthography_table() -> (r: KanaOrthographyTable)
    ensures
        r@ == KANA_VARIANT_PAIRS@,
{
    KanaOrthographyTable::builtin()
}

/// rewrite a lookup query from pre-reform orthography onto the modern
/// form the dictionary keys on, with the builtin table. Identity when nothing
/// is a variant.
pub fn kana_orthography_modernise(query: &str) -> (r: String)
    ensures
        r@ == modernise_spec(KANA_VARIANT_PAIRS@, query@),
{
    builtin_orthography_table().modernise(query)
}

// ---------------------------------------------------------------------------
// Sound-change table
// ---------------------------------------------------------------------------

/// Length of `s` in UTF-16 code units.
pub open spec fn utf16_len(s: Seq<char>) -> int
    decreases s.len(),
{
    if s.len() == 0 {
        0
    } else {
        utf16_len(s.drop_last()) + if s.last() as u32 > 0xFFFF {
            2int
        } else {
            1int
        }
    }
}

fn utf16_len_of(s: &Vec<char>) -> (r: usize)
    requires
        s.len() <= 0x1000_0000,
    ensures
        r == utf16_len(s@),
{
    let mut n: usize = 0;
    let mut i: usize = 0;
    proof {
        assert(s@.take(0) =~= Seq::<char>::empty());
    }
    while i < s.len()
        invariant
            i <= s.len() <= 0x1000_0000,
            n <= 2 * i,
            n == utf16_len(s@.take(i as int)),
        decreases s.len() - i,
    {
        proof {
            let t = s@.take(i + 1);
            assert(t.drop_last() =~= s@.take(i as int));
            assert(t.last() == s@[i as int]);
        }
        if s[i] as u32 > 0xFFFF {
            n += 2;
        } else {
            n += 1;
        }
        i += 1;
    }
    proof {
        assert(s@.take(s.len() as int) =~= s@);
    }
    n
}

/// The rows of a sound-change table: ハ行転呼 (`ha`), アウ->オウ (`au`) and
/// エウ->ヨウ (`eu`, whose modern forms are text).
pub struct SoundRows {
    pub ha: Seq<(char, char)>,
    pub au: Seq<(char, char)>,
    pub eu: Seq<(char, Seq<char>)>,
}

/// The table after reading one line: a trimmed, non-comment line of three
/// tab-separated fields `variant`, `modern`, `row` adds `variant -> modern` to
/// the named row when the variant is one character, the modern form is
/// non-empty and differs from the variant, it has the row's length (one
/// character for `ha`/`au`, one or two UTF-16 units for `eu`), and the row has
/// no mapping for the variant yet. Other lines leave the table as it is.
pub open spec fn sound_add(t: SoundRows, line: Seq<char>) -> SoundRows {
    let l = trim(line);
    let parts = tab_fields(l);
    if !is_row_line(l) || parts.len() != 3 {
        t
    } else {
        match single_field(parts[0]) {
            None => t,
            Some(v) => {
                let modern = parts[1];
                if modern.len() == 0 || modern == seq![v] {
                    t
                } else if parts[2] == seq!['h', 'a'] {
                    match single_field(modern) {
                        Some(c) => if pair_lookup(t.ha, v) is None {
                            SoundRows { ha: t.ha.push((v, c)), ..t }
                        } else {
                            t
                        },
                        None => t,
                    }
                } else if parts[2] == seq!['a', 'u'] {
                    match single_field(modern) {
                        Some(c) => if pair_lookup(t.au, v) is None {
                            SoundRows { au: t.au.push((v, c)), ..t }
                        } else {
                            t
                        },
                        None => t,
                    }
                } else if parts[2] == seq!['e', 'u'] {
                    if 1 <= utf16_len(modern) <= 2 && pair_lookup(t.eu, v) is None {
                        SoundRows { eu: t.eu.push((v, modern)), ..t }
                    } else {
                        t
                    }
                } else {
                    t
                }
            },
        }
    }
}

pub open spec fn sound_rows(lines: Seq<Seq<char>>) -> SoundRows
    decreases lines.len(),
{
    if lines.len() == 0 {
        SoundRows { ha: Seq::empty(), au: Seq::empty(), eu: Seq::empty() }
    } else {
        sound_add(sound_rows(lines.drop_last()), lines.last())
    }
}

pub open spec fn sound_parse(text: Seq<char>) -> SoundRows {
    sound_rows(text_lines(text))
}

/// The builtin エウ rows as text.
pub open spec fn builtin_eu_rows() -> Seq<(char, Seq<char>)> {
    KANA_EU@.map_values(
        |r: (char, char, bool)|
            (
                r.0,
                if r.2 {
                    seq![r.1, 'ょ']
                } else {
                    seq![r.1]
                },
            ),
    )
}

pub open spec fn eu_view(v: Seq<(char, Vec<char>)>) -> Seq<(char, Seq<char>)> {
    v.map_values(|p: (char, Vec<char>)| (p.0, p.1@))
}

/// Parsed historical kana sound-change table: rows `ha` (ハ行転呼),
/// `au` (アウ->オウ) and `eu` (エウ->ヨウ), in the shipped
/// `variants/kana_sound_changes.txt` format (see [`sound_add`]).
#[derive(Debug)]
pub struct KanaSoundTable {
    ha: Vec<(char, char)>,
    au: Vec<(char, char)>,
    eu: Vec<(char, Vec<char>)>,
}

impl View for KanaSoundTable {
    type V = SoundRows;

    closed spec fn view(&self) -> SoundRows {
        SoundRows { ha: self.ha@, au: self.au@, eu: eu_view(self.eu@) }
    }
}

/// Append a text-valued row, keeping the text view in step.
fn push_eu(eu: &mut Vec<(char, Vec<char>)>, k: char, m: Vec<char>)
    ensures
        eu_view(final(eu)@) == eu_view(old(eu)@).push((k, m@)),
{
    let ghost before = eu@;
    eu.push((k, m));
    proof {
        assert(eu_view(eu@) =~= eu_view(before).push((k, m@)));
    }
}

impl KanaSoundTable {
    #[verifier::type_invariant]
    closed spec fn wf(self) -> bool {
        &&& keys_distinct(self.ha@)
        &&& keys_distinct(self.au@)
        &&& keys_distinct(eu_view(self.eu@))
    }

    /// The committed table (the shipped `variants/kana_sound_changes.txt` rows).
    pub fn builtin() -> (r: Self)
        ensures
            r@.ha == KANA_HA@,
            r@.au == KANA_AU@,
            r@.eu == builtin_eu_rows(),
    {
        let ha = copy_pairs(&KANA_HA);
        let au = copy_pairs(&KANA_AU);
        let mut eu: Vec<(char, Vec<char>)> = Vec::new();
        let mut i: usize = 0;
        proof {
            assert(eu_view(eu@) =~= builtin_eu_rows().take(0));
        }
        while i < KANA_EU.len()
            invariant
                i <= KANA_EU@.len(),
                eu_view(eu@) == builtin_eu_rows().take(i as int),
            decreases KANA_EU@.len() - i,
        {
            let (k, m, small_yo) = KANA_EU[i];
            let mut modern: Vec<char> = Vec::new();
            modern.push(m);
            if small_yo {
                modern.push('ょ');
            }
            proof {
                assert(modern@ =~= builtin_eu_rows()[i as int].1);
            }
            push_eu(&mut eu, k, modern);
            proof {
                assert(builtin_eu_rows().take(i + 1) =~= builtin_eu_rows().take(i as int).push(
                    builtin_eu_rows()[i as int],
                ));
            }
            i += 1;
        }
        proof {
            assert(builtin_eu_rows().take(KANA_EU@.len() as int) =~= builtin_eu_rows());
            assert(keys_distinct(KANA_HA@));
            assert(keys_distinct(KANA_AU@));
            assert(keys_distinct(builtin_eu_rows()));
        }
        KanaSoundTable { ha, au, eu }
    }

    /// The identity table: every lookup misses and
    /// [`modernise`](Self::modernise) returns its input.
    pub fn empty() -> (r: Self)
        ensures
            r@.ha.len() == 0,
            r@.au.len() == 0,
            r@.eu.len() == 0,
    {
        let eu: Vec<(char, Vec<char>)> = Vec::new();
        proof {
            assert(eu_view(eu@) =~= Seq::<(char, Seq<char>)>::empty());
        }
        KanaSoundTable { ha: Vec::new(), au: Vec::new(), eu }
    }

    /// Parse the committed text format (see [`sound_add`]).
    pub fn parse(text: &str) -> (r: Self)
        ensures
            r@ == sound_parse(text@),
    {
        let chars = chars_of(text);
        let lines = split_on(&chars, '\n', '\n');
        let ghost ls = lines.deep_view();
        let mut ha: Vec<(char, char)> = Vec::new();
        let mut au: Vec<(char, char)> = Vec::new();
        let mut eu: Vec<(char, Vec<char>)> = Vec::new();
        let mut i: usize = 0;
        proof {
            assert(ls.take(0) =~= Seq::<Seq<char>>::empty());
            assert(eu_view(eu@) =~= Seq::<(char, Seq<char>)>::empty());
        }
        while i < lines.len()
            invariant
                i <= lines.len(),
                ls == lines.deep_view(),
                (SoundRows { ha: ha@, au: au@, eu: eu_view(eu@) }) == sound_rows(ls.take(i as int)),
                keys_distinct(ha@),
                keys_distinct(au@),
                keys_distinct(eu_view(eu@)),
            decreases lines.len() - i,
        {
            proof {
                lemma_deep_view_chars(lines@[i as int]);
                let t = ls.take(i + 1);
                assert(t.drop_last() =~= ls.take(i as int));
                assert(t.last() == lines@[i as int]@);
            }
            let line = &lines[i];
            i += 1;
            let parts = match row_fields(line) {
                None => continue,
                Some(p) => p,
            };
            if parts.len() != 3 {
                continue;
            }
            proof {
                lemma_deep_view_chars(parts@[0]);
                lemma_deep_view_chars(parts@[1]);
                lemma_deep_view_chars(parts@[2]);
            }
            let v = match single_field_of(&parts[0]) {
                None => continue,
                Some(v) => v,
            };
            let modern = &parts[1];
            let row = &parts[2];
            if modern.len() == 0 || (modern.len() == 1 && modern[0] == v) {
                proof {
                    if modern.len() == 1 {
                        assert(modern@ =~= seq![v]);
                    }
                }
                continue;
            }
            proof {
                if modern@ == seq![v] {
                    assert(modern@.len() == 1);
                }
            }
            let is_ha = row.len() == 2 && row[0] == 'h' && row[1] == 'a';
            let is_au = row.len() == 2 && row[0] == 'a' && row[1] == 'u';
            let is_eu = row.len() == 2 && row[0] == 'e' && row[1] == 'u';
            proof {
                if row@ == seq!['h', 'a'] || row@ == seq!['a', 'u'] || row@ == seq!['e', 'u'] {
                    assert(row@.len() == 2);
                }
                if is_ha {
                    assert(row@ =~= seq!['h', 'a']);
                }
                if is_au {
                    assert(row@ =~= seq!['a', 'u']);
                }
                if is_eu {
                    assert(row@ =~= seq!['e', 'u']);
                }
            }
            if is_ha {
                if let Some(c) = single_field_of(modern) {
                    if lookup_pair(ha.as_slice(), v).is_none() {
                        proof {
                            lemma_push_new_key(ha@, (v, c));
                        }
                        ha.push((v, c));
                    }
                }
            } else if is_au {
                if let Some(c) = single_field_of(modern) {
                    if lookup_pair(au.as_slice(), v).is_none() {
                        proof {
                            lemma_push_new_key(au@, (v, c));
                        }
                        au.push((v, c));
                    }
                }
            } else if is_eu {
                if modern.len() <= 2 {
                    let units = utf16_len_of(modern);
                    if 1 <= units && units <= 2 && find_eu(&eu, v).is_none() {
                        proof {
                            lemma_push_new_key(eu_view(eu@), (v, modern@));
                        }
                        let m = copy_vec(modern);
                        push_eu(&mut eu, v, m);
                    }
                } else {
                    proof {
                        lemma_utf16_len_at_least(modern@);
                    }
                }
            }
        }
        proof {
            assert(ls.take(lines.len() as int) =~= ls);
        }
        KanaSoundTable { ha, au, eu }
    }

    /// Number of distinct pairs in this table.
    pub fn entry_count(&self) -> (r: usize)
        ensures
            r == self@.ha.len() + self@.au.len() + self@.eu.len(),
    {
        proof {
            use_type_invariant(self);
            lemma_distinct_rows_fit(self@.ha);
            lemma_distinct_rows_fit(self@.au);
            lemma_distinct_rows_fit(self@.eu);
        }
        self.ha.len() + self.au.len() + self.eu.len()
    }

    /// The ハ行転呼 modern form of `variant`, when the table carries the pair.
    pub fn ha(&self, variant: char) -> (r: Option<char>)
        ensures
            r == pair_lookup(self@.ha, variant),
    {
        lookup_pair(self.ha.as_slice(), variant)
    }

    /// The アウ->オウ modern form of `variant`, when the table carries the pair.
    pub fn au(&self, variant: char) -> (r: Option<char>)
        ensures
            r == pair_lookup(self@.au, variant),
    {
        lookup_pair(self.au.as_slice(), variant)
    }

    /// The エウ->ヨウ modern form of `variant` (1–2 characters), when the table
    /// carries the pair.
    pub fn eu(&self, variant: char) -> (r: Option<String>)
        ensures
            match r {
                Some(s) => pair_lookup(self@.eu, variant) == Some(s@),
                None => pair_lookup(self@.eu, variant) is None,
            },
    {
        match find_eu(&self.eu, variant) {
            Some(i) => Some(string_of(&self.eu[i].1)),
            None => None,
        }
    }

    /// the two passes over this table, in the 告示's order — ハ行転呼,
    /// then the vowel changes before `う`. Identity when nothing is a rule's
    /// input.
    pub fn modernise(&self, query: &str) -> (r: String)
        ensures
            r@ == vowel_changes_spec(self@, ha_gyouten_spec(self@, query@)),
    {
        let s = chars_of(query);
        let h = self.ha_gyouten_chars(&s);
        let v = self.vowel_changes_chars(&h);
        string_of(&v)
    }

    /// Pass 1: 語中・語尾のハ行 -> ワ行, under each character's ending condition.
    pub fn ha_gyouten(&self, query: &str) -> (r: String)
        ensures
            r@ == ha_gyouten_spec(self@, query@),
    {
        let s = chars_of(query);
        let h = self.ha_gyouten_chars(&s);
        string_of(&h)
    }

    fn ha_gyouten_chars(&self, s: &Vec<char>) -> (r: Vec<char>)
        ensures
            r@ == ha_gyouten_spec(self@, s@),
    {
        let mut out: Vec<char> = Vec::new();
        let mut i: usize = 0;
        while i < s.len()
            invariant
                i <= s.len(),
                out@ =~= Seq::new(i as nat, |j: int| ha_at(self@, s@, j)),
            decreases s.len() - i,
        {
            let c = s[i];
            let e = match self.ha(c) {
                None => c,
                Some(mapped) => {
                    let prev = if i > 0 {
                        Some(s[i - 1])
                    } else {
                        None
                    };
                    let next = if i + 1 < s.len() {
                        Some(s[i + 1])
                    } else {
                        None
                    };
                    if ha_gyouten_applies(c, prev, next) {
                        mapped
                    } else {
                        c
                    }
                },
            };
            out.push(e);
            i += 1;
        }
        out
    }

    /// Pass 2: 母音の変化 before `う` — `au` replaces one character, `eu`
    /// replaces the エ段 character with its イ段 counterpart + small ょ and
    /// keeps the `う` (`け` + `う` -> `きょ` + `う`).
    pub fn vowel_changes(&self, query: &str) -> (r: String)
        ensures
            r@ == vowel_changes_spec(self@, query@),
    {
        let s = chars_of(query);
        let v = self.vowel_changes_chars(&s);
        string_of(&v)
    }

    fn vowel_changes_chars(&self, s: &Vec<char>) -> (r: Vec<char>)
        ensures
            r@ == vowel_changes_spec(self@, s@),
    {
        let n = s.len();
        let mut out: Vec<char> = Vec::new();
        let mut i: usize = 0;
        proof {
            assert(s@.skip(0) =~= s@);
            assert(out@ + vowel_changes_spec(self@, s@.skip(0)) =~= vowel_changes_spec(self@, s@));
        }
        while i < n
            invariant
                i <= n == s.len(),
                out@ + vowel_changes_spec(self@, s@.skip(i as int)) == vowel_changes_spec(self@, s@),
            decreases n - i,
        {
            let ghost rest = s@.skip(i as int);
            let ghost before = out@;
            let c = s[i];
            proof {
                assert(rest[0] == c);
                if i + 1 < n {
                    assert(rest[1] == s@[i + 1]);
                }
                assert(rest.skip(1) =~= s@.skip(i + 1));
                if i + 2 <= n {
                    assert(rest.skip(2) =~= s@.skip(i + 2));
                }
            }
            if i + 1 < n && s[i + 1] == 'う' {
                if let Some(mapped) = self.au(c) {
                    out.push(mapped);
                    out.push('う');
                    proof {
                        assert(out@ + vowel_changes_spec(self@, s@.skip(i + 2)) =~= before + (seq![
                            mapped,
                            'う',
                        ] + vowel_changes_spec(self@, s@.skip(i + 2))));
                    }
                    i += 2;
                    continue;
                }
                if let Some(k) = find_eu(&self.eu, c) {
                    let m = &self.eu[k].1;
                    let mut j: usize = 0;
                    while j < m.len()
                        invariant
                            j <= m.len(),
                            out@ == before + m@.take(j as int),
                        decreases m.len() - j,
                    {
                        out.push(m[j]);
                        proof {
                            assert(m@.take(j + 1) =~= m@.take(j as int).push(m@[j as int]));
                            assert(out@ =~= before + m@.take(j + 1));
                        }
                        j += 1;
                    }
                    out.push('う');
                    proof {
                        assert(m@.take(m.len() as int) =~= m@);
                        assert(out@ + vowel_changes_spec(self@, s@.skip(i + 2)) =~= before + (m@
                            + seq!['う'] + vowel_changes_spec(self@, s@.skip(i + 2))));
                    }
                    i += 2;
                    continue;
                }
            }
            out.push(c);
            proof {
                assert(out@ + vowel_changes_spec(self@, s@.skip(i + 1)) =~= before + (seq![c]
                    + vowel_changes_spec(self@, s@.skip(i + 1))));
            }
            i += 1;
        }
        proof {
            assert(s@.skip(n as int) =~= Seq::<char>::empty());
            assert(out@ + Seq::<char>::empty() =~= out@);
        }
        out
    }
}

/// A copy of `v`.
fn copy_vec(v: &Vec<char>) -> (r: Vec<char>)
    ensures
        r@ == v@,
{
    let r = copy_range(v, 0, v.len());
    proof {
        assert(v@.subrange(0, v.len() as int) =~= v@);
    }
    r
}

proof fn lemma_utf16_len_at_least(s: Seq<char>)
    ensures
        utf16_len(s) >= s.len(),
    decreases s.len(),
{
    if s.len() > 0 {
        lemma_utf16_len_at_least(s.drop_last());
    }
}

proof fn lemma_char_bound(c: char)
    ensures
        0 <= c as int <= 0x10FFFF,
{
}

/// Rows with distinct character keys number fewer than the code points.
proof fn lemma_distinct_rows_fit<V>(t: Seq<(char, V)>)
    requires
        keys_distinct(t),
    ensures
        t.len() <= 0x110000,
{
    let keys = Set::new(|x: int| exists|i: int| 0 <= i < t.len() && t[i].0 as int == x);
    let codes = Set::new(|x: int| 0 <= x < 0x110000);
    assert(codes =~= vstd::set_lib::set_int_range(0, 0x110000));
    vstd::set_lib::lemma_int_range(0, 0x110000);
    assert forall|x: int| keys.contains(x) implies codes.contains(x) by {
        let i = choose|i: int| 0 <= i < t.len() && t[i].0 as int == x;
        lemma_char_bound(t[i].0);
    }
    assert(keys.subset_of(codes));
    vstd::set_lib::lemma_len_subset(keys, codes);
    let f = |i: int| t[i].0 as int;
    let idx = vstd::set_lib::set_int_range(0, t.len() as int);
    vstd::set_lib::lemma_int_range(0, t.len() as int);
    assert forall|a: int, b: int| idx.contains(a) && idx.contains(b) && f(a) == f(b) implies a
        == b by {
        if a < b {
            assert(t[a].0 != t[b].0);
        } else if b < a {
            assert(t[b].0 != t[a].0);
        }
    }
    assert forall|x: int| idx.map(f).contains(x) <==> keys.contains(x) by {
        if keys.contains(x) {
            let i = choose|i: int| 0 <= i < t.len() && t[i].0 as int == x;
            assert(idx.contains(i) && f(i) == x);
        }
        if idx.map(f).contains(x) {
            let i = choose|i: int| idx.contains(i) && f(i) == x;
            assert(0 <= i < t.len() && t[i].0 as int == x);
        }
    }
    assert(idx.map(f) =~= keys);
    vstd::set_lib::lemma_map_size(idx, keys, f);
}

/// Index of the row of `eu` keyed `k`.
fn find_eu(eu: &Vec<(char, Vec<char>)>, k: char) -> (r: Option<usize>)
    ensures
        match r {
            Some(i) => i < eu.len() && pair_lookup(eu_view(eu@), k) == Some(eu@[i as int].1@),
            None => pair_lookup(eu_view(eu@), k) is None,
        },
{
    let ghost t = eu_view(eu@);
    let mut i: usize = 0;
    proof {
        assert(t.skip(0) =~= t);
    }
    while i < eu.len()
        invariant
            i <= eu.len(),
            t == eu_view(eu@),
            pair_lookup(t, k) == pair_lookup(t.skip(i as int), k),
        decreases eu.len() - i,
    {
        proof {
            assert(t.skip(i as int).drop_first() =~= t.skip(i + 1));
            assert(t.skip(i as int)[0] == (eu@[i as int].0, eu@[i as int].1@));
        }
        if eu[i].0 == k {
            return Some(i);
        }
        i += 1;
    }
    None
}

/// Hiragana or katakana (U+3041..=U+3096, U+30A1..=U+30F6).
pub open spec fn kana(c: char) -> bool {
    (0x3041 <= c as u32 && c as u32 <= 0x3096) || (0x30A1 <= c as u32 && c as u32 <= 0x30F6)
}

pub fn is_kana_char(c: char) -> (r: bool)
    ensures
        r == kana(c),
{
    (0x3041 <= c as u32 && c as u32 <= 0x3096) || (0x30A1 <= c as u32 && c as u32 <= 0x30F6)
}

pub const PARTICLES: [char; 26] = [
    'は', 'が', 'の', 'に', 'を', 'と', 'も', 'や', 'か', 'ぞ', 'な', 'よ', 'ね', 'だ', 'で', 'ど',
    'ば', 'へ', 'こ', 'そ', 'し', 'か', 'ま', 'で', 'よ', 'り',
];

pub const HI_SUFFIX: [char; 3] = ['て', 'つ', 'な'];

pub const HE_SUFFIX: [char; 11] = ['し', 'た', 'て', 'ば', 'ど', 'き', 'け', 'る', 'れ', 'り', 'ま'];

pub const HA_SUFFIX: [char; 4] = ['ず', 'ぬ', 'む', 'ば'];

/// Whether a ハ行 character folds at this grammatical ending: ふ word-finally
/// or before a particle or non-kana, after something other than う (終止形・
/// 連体形); ひ before て/つ/な (連用形); へ before し/た/て/ば/ど/き/け/る/れ/り/ま
/// (仮定形・已然形 and the 下二段 連用形); は after something and before
/// ず/ぬ/む/ば (未然形).
pub open spec fn ha_applies(variant: char, prev: Option<char>, next: Option<char>) -> bool {
    if variant == 'ふ' {
        prev is Some && prev != Some('う') && match next {
            Some(n) => !kana(n) || PARTICLES@.contains(n),
            None => true,
        }
    } else if variant == 'ひ' {
        match next {
            Some(n) => HI_SUFFIX@.contains(n),
            None => false,
        }
    } else if variant == 'へ' {
        match next {
            Some(n) => HE_SUFFIX@.contains(n),
            None => false,
        }
    } else if variant == 'は' {
        prev is Some && match next {
            Some(n) => HA_SUFFIX@.contains(n),
            None => false,
        }
    } else {
        false
    }
}

/// Whether a ハ行 character folds at this grammatical ending.
pub fn ha_gyouten_applies(variant: char, prev: Option<char>, next: Option<char>) -> (r: bool)
    ensures
        r == ha_applies(variant, prev, next),
{
    if variant == 'ふ' {
        prev.is_some() && prev != Some('う') && match next {
            Some(n) => !is_kana_char(n) || char_in(&PARTICLES, n),
            None => true,
        }
    } else if variant == 'ひ' {
        match next {
            Some(n) => char_in(&HI_SUFFIX, n),
            None => false,
        }
    } else if variant == 'へ' {
        match next {
            Some(n) => char_in(&HE_SUFFIX, n),
            None => false,
        }
    } else if variant == 'は' {
        prev.is_some() && match next {
            Some(n) => char_in(&HA_SUFFIX, n),
            None => false,
        }
    } else {
        false
    }
}

/// Character `i` of the ハ行転呼 pass.
pub open spec fn ha_at(t: SoundRows, s: Seq<char>, i: int) -> char {
    let c = s[i];
    match pair_lookup(t.ha, c) {
        Some(m) => if ha_applies(c, prev_of(s, i), next_of(s, i)) {
            m
        } else {
            c
        },
        None => c,
    }
}

pub open spec fn ha_gyouten_spec(t: SoundRows, s: Seq<char>) -> Seq<char> {
    Seq::new(s.len(), |i: int| ha_at(t, s, i))
}

/// The vowel-change pass read from the front: a character with an `au` row
/// followed by `う` becomes its modern form and keeps the `う`; failing that, a
/// character with an `eu` row followed by `う` becomes its modern text and
/// keeps the `う`; every other character is kept.
pub open spec fn vowel_changes_spec(t: SoundRows, s: Seq<char>) -> Seq<char>
    decreases s.len(),
{
    if s.len() == 0 {
        s
    } else if s.len() >= 2 && s[1] == 'う' && pair_lookup(t.au, s[0]) is Some {
        seq![pair_lookup(t.au, s[0])->0, 'う'] + vowel_changes_spec(t, s.skip(2))
    } else if s.len() >= 2 && s[1] == 'う' && pair_lookup(t.eu, s[0]) is Some {
        pair_lookup(t.eu, s[0])->0 + seq!['う'] + vowel_changes_spec(t, s.skip(2))
    } else {
        seq![s[0]] + vowel_changes_spec(t, s.skip(1))
    }
}

/// The builtin sound table, built for the free-function callers.
pub fn builtin_sound_table() -> (r: KanaSoundTable)
    ensures
        r@.ha == KANA_HA@,
        r@.au == KANA_AU@,
        r@.eu == builtin_eu_rows(),
{
    KanaSoundTable::builtin()
}

/// The builtin table as rows.
pub open spec fn builtin_sound_rows() -> SoundRows {
    SoundRows { ha: KANA_HA@, au: KANA_AU@, eu: builtin_eu_rows() }
}

/// the historical sound changes JMdict's entry-local variants cannot
/// reach (やう→よう, けふ→きょう, 思ふ→思う), with the builtin table. Compose
/// after [`kana_orthography_modernise`].
pub fn kana_sound_changes_modernise(query: &str) -> (r: String)
    ensures
        r@ == vowel_changes_spec(builtin_sound_rows(), ha_gyouten_spec(builtin_sound_rows(), query@)),
{
    let t = builtin_sound_table();
    proof {
        assert(t@ == builtin_sound_rows());
    }
    t.modernise(query)
}

// ---------------------------------------------------------------------------
// Morae and pitch contours
// ---------------------------------------------------------------------------

/// Small kana (拗音) fuse with the preceding kana into one mora.
pub const FUSING_KANA: [char; 22] = [
    'ぁ', 'ぃ', 'ぅ', 'ぇ', 'ぉ', 'ゃ', 'ゅ', 'ょ', 'ゎ', 'ゕ', 'ゖ', 'ァ', 'ィ', 'ゥ', 'ェ', 'ォ',
    'ャ', 'ュ', 'ョ', 'ヮ', 'ヵ', 'ヶ',
];

/// The morae of a reading: every character starts a mora except a small
/// kana after an earlier character, which joins the mora before it.
pub open spec fn morae_spec(s: Seq<char>) -> Seq<Seq<char>>
    decreases s.len(),
{
    if s.len() == 0 {
        Seq::empty()
    } else {
        let done = morae_spec(s.drop_last());
        let c = s.last();
        if done.len() > 0 && FUSING_KANA@.contains(c) {
            done.update(done.len() - 1, done.last().push(c))
        } else {
            done.push(seq![c])
        }
    }
}

/// The strings spelled by each vector of `v`.
pub fn strings_of(v: &Vec<Vec<char>>) -> (r: Vec<String>)
    ensures
        r.deep_view() == v.deep_view(),
{
    let mut out: Vec<String> = Vec::new();
    let mut i: usize = 0;
    while i < v.len()
        invariant
            i <= v.len(),
            out.deep_view() =~= v.deep_view().take(i as int),
        decreases v.len() - i,
    {
        proof {
            lemma_deep_view_chars(v@[i as int]);
        }
        let s = string_of(&v[i]);
        let ghost sv = s@;
        let ghost before = out.deep_view();
        let ghost ov = out@;
        out.push(s);
        proof {
            assert forall|j: int| 0 <= j < before.len() implies #[trigger] out.deep_view()[j]
                == before[j] by {
                assert(out@[j] == ov[j]);
            }
            assert(ov.len() == before.len());
            assert(out@[i as int]@ == sv);
            assert(out.deep_view()[i as int] == sv);
            assert(v.deep_view()[i as int] == v@[i as int]@);
            assert(out.deep_view() =~= v.deep_view().take(i + 1));
        }
        i += 1;
    }
    out
}

/// Split a reading into morae (きょう = 2; がっこう = 4; コーヒー = 4).
pub fn morae_of(reading: &str) -> (r: Vec<String>)
    ensures
        r.deep_view() == morae_spec(reading@),
{
    let s = chars_of(reading);
    let mut out: Vec<Vec<char>> = Vec::new();
    let mut i: usize = 0;
    proof {
        assert(s@.take(0) =~= Seq::<char>::empty());
        assert(out.deep_view() =~= Seq::<Seq<char>>::empty());
    }
    while i < s.len()
        invariant
            i <= s.len(),
            out.deep_view() == morae_spec(s@.take(i as int)),
        decreases s.len() - i,
    {
        proof {
            let t = s@.take(i + 1);
            assert(t.drop_last() =~= s@.take(i as int));
            assert(t.last() == s@[i as int]);
        }
        let c = s[i];
        let ghost before = out.deep_view();
        let ghost ov = out@;
        if out.len() > 0 && char_in(&FUSING_KANA, c) {
            let mut last = out.pop().unwrap();
            proof {
                lemma_deep_view_chars(last);
                assert(last == ov.last());
            }
            last.push(c);
            proof {
                lemma_deep_view_chars(last);
            }
            out.push(last);
            proof {
                assert forall|j: int| 0 <= j < before.len() - 1 implies #[trigger] out.deep_view()[j]
                    == before[j] by {
                    assert(out@[j] == ov[j]);
                }
                assert(out.deep_view() =~= before.update(before.len() - 1, before.last().push(c)));
            }
        } else {
            let mut m: Vec<char> = Vec::new();
            m.push(c);
            proof {
                lemma_deep_view_chars(m);
            }
            out.push(m);
            proof {
                assert forall|j: int| 0 <= j < before.len() implies #[trigger] out.deep_view()[j]
                    == before[j] by {
                    assert(out@[j] == ov[j]);
                }
                assert(out.deep_view() =~= before.push(seq![c]));
            }
        }
        i += 1;
    }
    proof {
        assert(s@.take(s.len() as int) =~= s@);
    }
    strings_of(&out)
}

/// High/low of mora `i` for a Yomitan downstep position: heiban (0 or less)
/// is low then high; atamadaka (1) is high then low; otherwise high from the
/// second mora up to the downstep.
pub open spec fn pitch_high(position: i32, i: int) -> bool {
    if position <= 0 {
        i >= 1
    } else if position == 1 {
        i == 0
    } else {
        i >= 1 && i < position
    }
}

/// High/low per mora for a Yomitan downstep position (0 = heiban).
pub fn pitch_pattern(mora_count: usize, position: i32) -> (r: Vec<bool>)
    ensures
        r@ == Seq::new(mora_count as nat, |i: int| pitch_high(position, i)),
{
    let mut out: Vec<bool> = Vec::new();
    let mut i: usize = 0;
    while i < mora_count
        invariant
            i <= mora_count,
            out@ =~= Seq::new(i as nat, |j: int| pitch_high(position, j)),
        decreases mora_count - i,
    {
        let high = if position <= 0 {
            i >= 1
        } else if position == 1 {
            i == 0
        } else {
            i >= 1 && (i as u64) < (position as u64)
        };
        out.push(high);
        i += 1;
    }
    out
}

/// True when the downstep lands past the final mora (odaka): the following
/// particle carries the fall, so the renderer draws a fall arrow.
pub fn falls_beyond_word(mora_count: usize, position: i32) -> (r: bool)
    ensures
        r == (mora_count > 0 && position > 0 && position as int >= mora_count as int),
{
    mora_count > 0 && position > 0 && (position as u64) >= (mora_count as u64)
}


/// Modernising a query none of whose characters is a variant of the table
/// gives the query back; in particular the empty table is the identity.
pub proof fn law_orthography_identity_without_variants(t: Seq<(char, char)>, q: Seq<char>)
    requires
        forall|i: int| 0 <= i < q.len() ==> pair_lookup(t, #[trigger] q[i]) is None,
    ensures
        modernise_spec(t, q) == q,
{
    assert(modernise_spec(t, q) =~= q);
}

/// The empty orthography table maps every character to itself.
pub proof fn law_orthography_empty_table(q: Seq<char>, c: char)
    ensures
        modernise_spec(Seq::empty(), q) == q,
        canonical_of(Seq::empty(), c) == c,
{
    law_orthography_identity_without_variants(Seq::empty(), q);
}

/// No rule of any row takes `c` as its input.
pub open spec fn no_sound_rule(t: SoundRows, c: char) -> bool {
    &&& pair_lookup(t.ha, c) is None
    &&& pair_lookup(t.au, c) is None
    &&& pair_lookup(t.eu, c) is None
}

proof fn lemma_vowel_changes_identity(t: SoundRows, s: Seq<char>)
    requires
        forall|i: int| 0 <= i < s.len() ==> no_sound_rule(t, #[trigger] s[i]),
    ensures
        vowel_changes_spec(t, s) == s,
    decreases s.len(),
{
    if s.len() > 0 {
        let rest = s.skip(1);
        assert(no_sound_rule(t, s[0]));
        assert forall|i: int| 0 <= i < rest.len() implies no_sound_rule(t, #[trigger] rest[i]) by {
            assert(rest[i] == s[i + 1]);
        }
        lemma_vowel_changes_identity(t, rest);
        assert(seq![s[0]] + rest =~= s);
    }
}

/// Both sound-change passes give back a query none of whose characters is a
/// rule's input; in particular the empty table is the identity.
pub proof fn law_sound_identity_without_rules(t: SoundRows, q: Seq<char>)
    requires
        forall|i: int| 0 <= i < q.len() ==> no_sound_rule(t, #[trigger] q[i]),
    ensures
        ha_gyouten_spec(t, q) == q,
        vowel_changes_spec(t, ha_gyouten_spec(t, q)) == q,
{
    assert forall|i: int| 0 <= i < q.len() implies #[trigger] ha_at(t, q, i) == q[i] by {
        assert(no_sound_rule(t, q[i]));
    }
    assert(ha_gyouten_spec(t, q) =~= q);
    lemma_vowel_changes_identity(t, q);
}

/// The empty sound table is the identity.
pub proof fn law_sound_empty_table(t: SoundRows, q: Seq<char>)
    requires
        t.ha.len() == 0,
        t.au.len() == 0,
        t.eu.len() == 0,
    ensures
        vowel_changes_spec(t, ha_gyouten_spec(t, q)) == q,
{
    law_sound_identity_without_rules(t, q);
}


/// A pair the text format can carry: two different characters of the Basic
/// Multilingual Plane, neither white space, the variant not `#`.
pub open spec fn writable_pair(p: (char, char)) -> bool {
    &&& p.0 != p.1
    &&& p.0 as u32 <= 0xFFFF
    &&& p.1 as u32 <= 0xFFFF
    &&& !is_white_space(p.0)
    &&& !is_white_space(p.1)
    &&& p.0 != '#'
}

/// The line of a pair: `variant<TAB>canonical`.
pub open spec fn pair_line(p: (char, char)) -> Seq<char> {
    seq![p.0, '\t', p.1]
}

/// Pairs in the text format, one `variant<TAB>canonical` line each.
pub open spec fn pairs_text(ps: Seq<(char, char)>) -> Seq<char>
    decreases ps.len(),
{
    if ps.len() == 0 {
        Seq::empty()
    } else {
        pairs_text(ps.drop_last()) + pair_line(ps.last()) + seq!['\n']
    }
}

/// The lines of the pairs.
pub open spec fn pair_lines(ps: Seq<(char, char)>) -> Seq<Seq<char>> {
    Seq::new(ps.len(), |i: int| pair_line(ps[i]))
}

proof fn lemma_split_push(y: Seq<char>, ch: char, sep: spec_fn(char) -> bool)
    ensures
        split_when(y.push(ch), sep) == if sep(ch) {
            split_when(y, sep).push(Seq::<char>::empty())
        } else {
            let p = split_when(y, sep);
            p.update(p.len() - 1, p.last().push(ch))
        },
{
    assert(y.push(ch).drop_last() =~= y);
    assert(y.push(ch).last() == ch);
}

pub(crate) proof fn lemma_pairs_text_lines(ps: Seq<(char, char)>)
    requires
        forall|i: int| 0 <= i < ps.len() ==> writable_pair(#[trigger] ps[i]),
    ensures
        text_lines(pairs_text(ps)) == pair_lines(ps).push(Seq::<char>::empty()),
    decreases ps.len(),
{
    let sep = either_char('\n', '\n');
    if ps.len() == 0 {
        assert(pairs_text(ps) =~= Seq::<char>::empty());
        assert(text_lines(pairs_text(ps)) =~= pair_lines(ps).push(Seq::<char>::empty()));
    } else {
        let q = ps.drop_last();
        assert forall|i: int| 0 <= i < q.len() implies writable_pair(#[trigger] q[i]) by {
            assert(q[i] == ps[i]);
        }
        lemma_pairs_text_lines(q);
        let p = ps.last();
        assert(writable_pair(ps[ps.len() - 1]));
        let t0 = pairs_text(q);
        let t1 = t0.push(p.0);
        let t2 = t1.push('\t');
        let t3 = t2.push(p.1);
        let t4 = t3.push('\n');
        assert(pairs_text(ps) =~= t4);
        lemma_split_push(t0, p.0, sep);
        lemma_split_push(t1, '\t', sep);
        lemma_split_push(t2, p.1, sep);
        lemma_split_push(t3, '\n', sep);
        let l0 = pair_lines(q).push(Seq::<char>::empty());
        assert(split_when(t0, sep) == l0);
        assert(l0.last() =~= Seq::<char>::empty());
        assert(Seq::<char>::empty().push(p.0).push('\t').push(p.1) =~= pair_line(p));
        assert(split_when(t3, sep) =~= pair_lines(ps));
        assert(split_when(t4, sep) =~= pair_lines(ps).push(Seq::<char>::empty()));
    }
}

pub(crate) proof fn lemma_pair_line_row(p: (char, char))
    requires
        writable_pair(p),
    ensures
        orthography_row(pair_line(p)) == Some(p),
{
    let l = pair_line(p);
    let tab = either_char('\t', '\t');
    assert(trim_start(l) == l);
    assert(trim_end(l) == l);
    let a = seq![p.0];
    let b = a.push('\t');
    assert(l =~= b.push(p.1));
    lemma_split_push(Seq::<char>::empty(), p.0, tab);
    assert(Seq::<char>::empty().push(p.0) =~= a);
    assert(split_when(Seq::<char>::empty(), tab) =~= seq![Seq::<char>::empty()]);
    assert(split_when(a, tab) =~= seq![a]);
    lemma_split_push(a, '\t', tab);
    lemma_split_push(b, p.1, tab);
    assert(tab_fields(l) =~= seq![a, seq![p.1]]);
}

proof fn lemma_rows_of_pair_lines(ps: Seq<(char, char)>)
    requires
        keys_distinct(ps),
        forall|i: int| 0 <= i < ps.len() ==> writable_pair(#[trigger] ps[i]),
    ensures
        orthography_rows(pair_lines(ps)) == ps,
    decreases ps.len(),
{
    if ps.len() > 0 {
        let q = ps.drop_last();
        assert forall|i: int| 0 <= i < q.len() implies writable_pair(#[trigger] q[i]) by {
            assert(q[i] == ps[i]);
        }
        assert(keys_distinct(q)) by {
            assert forall|a: int, b: int| 0 <= a < b < q.len() implies q[a].0 != q[b].0 by {
                assert(q[a] == ps[a] && q[b] == ps[b]);
            }
        }
        lemma_rows_of_pair_lines(q);
        assert(pair_lines(ps).drop_last() =~= pair_lines(q));
        assert(writable_pair(ps[ps.len() - 1]));
        lemma_pair_line_row(ps.last());
        lemma_pair_lookup_some(q, ps.last().0);
        if pair_lookup(q, ps.last().0) is Some {
            let i = choose|i: int| 0 <= i < q.len() && q[i].0 == ps.last().0;
            assert(ps[i].0 != ps[ps.len() - 1].0);
        }
        assert(q.push(ps.last()) =~= ps);
    }
}

/// Reading back what was written: the text format of a list of pairs that
/// the format can carry, with no variant twice, parses to exactly those
/// pairs, in order.
pub proof fn law_orthography_text_roundtrip(ps: Seq<(char, char)>)
    requires
        keys_distinct(ps),
        forall|i: int| 0 <= i < ps.len() ==> writable_pair(#[trigger] ps[i]),
    ensures
        orthography_parse(pairs_text(ps)) == ps,
{
    lemma_pairs_text_lines(ps);
    let lines = pair_lines(ps).push(Seq::<char>::empty());
    assert(lines.drop_last() =~= pair_lines(ps));
    assert(trim_start(Seq::<char>::empty()) == Seq::<char>::empty());
    assert(trim_end(Seq::<char>::empty()) == Seq::<char>::empty());
    assert(orthography_row(lines.last()) is None);
    lemma_rows_of_pair_lines(ps);
}


/// The committed orthography table is what its text format reads back as:
/// its 16 pairs, written one `variant<TAB>canonical` line each, parse to the
/// same pairs in order, so the built-in and the parsed table answer alike.
pub proof fn law_builtin_orthography_text_roundtrip()
    ensures
        KANA_VARIANT_PAIRS@.len() == 16,
        orthography_parse(pairs_text(KANA_VARIANT_PAIRS@)) == KANA_VARIANT_PAIRS@,
{
    let ps = KANA_VARIANT_PAIRS@;
    assert(keys_distinct(ps));
    assert forall|i: int| 0 <= i < ps.len() implies writable_pair(#[trigger] ps[i]) by {
        assert(0x3000 < ps[i].0 as u32 && ps[i].0 as u32 <= 0xFFFF);
        assert(0x3000 < ps[i].1 as u32 && ps[i].1 as u32 <= 0xFFFF);
        assert(ps[i].0 != ps[i].1);
    }
    law_orthography_text_roundtrip(ps);
}

/// Pieces joined in order.
pub open spec fn joined(parts: Seq<Seq<char>>) -> Seq<char>
    decreases parts.len(),
{
    if parts.len() == 0 {
        Seq::empty()
    } else {
        joined(parts.drop_last()) + parts.last()
    }
}

/// The morae of a reading split it: they are non-empty and spell the
/// reading in order.
pub proof fn law_morae_spell_the_reading(s: Seq<char>)
    ensures
        joined(morae_spec(s)) == s,
        forall|i: int| 0 <= i < morae_spec(s).len() ==> #[trigger] morae_spec(s)[i].len() > 0,
    decreases s.len(),
{
    if s.len() > 0 {
        let q = s.drop_last();
        law_morae_spell_the_reading(q);
        let done = morae_spec(q);
        let c = s.last();
        assert(q.push(c) =~= s);
        if done.len() > 0 && FUSING_KANA@.contains(c) {
            let m = done.update(done.len() - 1, done.last().push(c));
            assert(m.drop_last() =~= done.drop_last());
            assert(joined(done) == joined(done.drop_last()) + done.last());
            assert(joined(m) =~= joined(done).push(c));
            assert forall|i: int| 0 <= i < m.len() implies #[trigger] m[i].len() > 0 by {
                if i < done.len() - 1 {
                    assert(m[i] == done[i]);
                }
            }
        } else {
            let m = done.push(seq![c]);
            assert(m.drop_last() =~= done);
            assert(joined(m) =~= joined(done).push(c));
            assert forall|i: int| 0 <= i < m.len() implies #[trigger] m[i].len() > 0 by {
                if i < done.len() {
                    assert(m[i] == done[i]);
                }
            }
        }
    }
}

} // verus!
