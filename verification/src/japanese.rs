//! Japanese lookup-query normalisation: width conversion, the lookup-variant
//! fold with iteration-mark expansion, combining-mark composition, kana script
//! folding, emphatic collapse, vertical punctuation and KANJIDIC reading lists.
use vstd::prelude::*;
use crate::kana_tables::{
    lookup_pair, lookup_variant, lookup_variant_of, pair_lookup, COMBINING_DAKUTEN,
    COMBINING_HANDAKUTEN, HALFWIDTH_KANA, HALFWIDTH_SEMI_VOICED, HALFWIDTH_VOICED,
    HIRAGANA_VOICED, KATAKANA_VOICED, MEASURED_VARIANTS,
};
use crate::text::{
    chars_equal, chars_of, copy_range, either_char, lemma_char_code, lemma_deep_view_chars, split_on, split_when,
    string_of,
};

verus! {

/// Hiragana block U+3041..=U+3096.
pub open spec fn is_hiragana(c: char) -> bool {
    0x3041 <= c as u32 && c as u32 <= 0x3096
}

/// Katakana block U+30A1..=U+30F6.
pub open spec fn is_katakana(c: char) -> bool {
    0x30A1 <= c as u32 && c as u32 <= 0x30F6
}

fn hiragana_char(c: char) -> (r: bool)
    ensures
        r == is_hiragana(c),
{
    0x3041 <= c as u32 && c as u32 <= 0x3096
}

fn katakana_char(c: char) -> (r: bool)
    ensures
        r == is_katakana(c),
{
    0x30A1 <= c as u32 && c as u32 <= 0x30F6
}

// ---------------------------------------------------------------------------
// Width conversion
// ---------------------------------------------------------------------------

/// The standard form of one character outside a half-width voiced pair:
/// half-width kana widen, full-width ASCII (U+FF01..=U+FF5E) narrows, the
/// vertical ellipsis forms fold back to their horizontal forms and the
/// ideographic space becomes a space.
pub open spec fn widen_char(c: char) -> char {
    match pair_lookup(HALFWIDTH_KANA@, c) {
        Some(m) => m,
        None => if 0xFF01 <= c as u32 && c as u32 <= 0xFF5E {
            ((c as u32 - 0xFEE0) as u32) as char
        } else if c == '\u{FE19}' {
            '\u{2026}'
        } else if c == '\u{FE30}' {
            '\u{2025}'
        } else if c == '\u{3000}' {
            ' '
        } else {
            c
        },
    }
}

fn widen_one(c: char) -> (r: char)
    ensures
        r == widen_char(c),
{
    match lookup_pair(&HALFWIDTH_KANA, c) {
        Some(m) => m,
        None => {
            if 0xFF01 <= c as u32 && c as u32 <= 0xFF5E {
                let x: u32 = c as u32 - 0xFEE0;
                let r = (x as u8) as char;
                proof {
                    lemma_char_code(r, x);
                }
                r
            } else if c == '\u{FE19}' {
                '\u{2026}'
            } else if c == '\u{FE30}' {
                '\u{2025}'
            } else if c == '\u{3000}' {
                ' '
            } else {
                c
            }
        },
    }
}

/// Width conversion read from the front: a half-width kana followed by a
/// half-width dakuten (ﾞ, U+FF9E) or handakuten (ﾟ, U+FF9F) that has a
/// composed form becomes that one full-width kana; every other character is
/// converted on its own by [`widen_char`].
pub open spec fn convert_width_spec(s: Seq<char>) -> Seq<char>
    decreases s.len(),
{
    if s.len() == 0 {
        s
    } else if s.len() >= 2 && s[1] == '\u{FF9E}' && pair_lookup(HALFWIDTH_VOICED@, s[0]) is Some {
        seq![pair_lookup(HALFWIDTH_VOICED@, s[0])->0] + convert_width_spec(s.skip(2))
    } else if s.len() >= 2 && s[1] == '\u{FF9F}' && pair_lookup(HALFWIDTH_SEMI_VOICED@, s[0]) is Some {
        seq![pair_lookup(HALFWIDTH_SEMI_VOICED@, s[0])->0] + convert_width_spec(s.skip(2))
    } else {
        seq![widen_char(s[0])] + convert_width_spec(s.skip(1))
    }
}

fn convert_width_chars(s: &Vec<char>) -> (r: Vec<char>)
    ensures
        r@ == convert_width_spec(s@),
{
    let n = s.len();
    let mut out: Vec<char> = Vec::new();
    let mut i: usize = 0;
    proof {
        assert(s@.skip(0) =~= s@);
        assert(out@ + convert_width_spec(s@.skip(0)) =~= convert_width_spec(s@));
    }
    while i < n
        invariant
            i <= n == s.len(),
            out@ + convert_width_spec(s@.skip(i as int)) == convert_width_spec(s@),
        decreases n - i,
    {
        let ghost rest = s@.skip(i as int);
        let c = s[i];
        proof {
            assert(rest[0] == c);
            if i + 1 < n {
                assert(rest[1] == s@[i + 1]);
            }
        }
        if i + 1 < n && s[i + 1] == '\u{FF9E}' {
            if let Some(m) = lookup_pair(&HALFWIDTH_VOICED, c) {
                out.push(m);
                proof {
                    assert(rest.skip(2) =~= s@.skip(i + 2));
                    assert(out@ + convert_width_spec(s@.skip(i + 2)) =~= old_out_plus(
                        out@, m, convert_width_spec(s@.skip(i + 2)),
                    ));
                }
                i += 2;
                continue;
            }
        }
        if i + 1 < n && s[i + 1] == '\u{FF9F}' {
            if let Some(m) = lookup_pair(&HALFWIDTH_SEMI_VOICED, c) {
                out.push(m);
                proof {
                    assert(rest.skip(2) =~= s@.skip(i + 2));
                    assert(out@ + convert_width_spec(s@.skip(i + 2)) =~= old_out_plus(
                        out@, m, convert_width_spec(s@.skip(i + 2)),
                    ));
                }
                i += 2;
                continue;
            }
        }
        let w = widen_one(c);
        out.push(w);
        proof {
            assert(rest.skip(1) =~= s@.skip(i + 1));
            assert(out@ + convert_width_spec(s@.skip(i + 1)) =~= old_out_plus(
                out@, w, convert_width_spec(s@.skip(i + 1)),
            ));
        }
        i += 1;
    }
    proof {
        assert(s@.skip(n as int) =~= Seq::<char>::empty());
        assert(out@ + Seq::<char>::empty() =~= out@);
    }
    out
}

/// `(pushed.drop_last() + [c]) + rest`, the shape a one-character emit leaves.
spec fn old_out_plus(pushed: Seq<char>, c: char, rest: Seq<char>) -> Seq<char> {
    pushed.drop_last() + (seq![c] + rest)
}

/// Convert full-width characters to their standard equivalents.
pub fn convert_width(text: &str) -> (r: String)
    ensures
        r@ == convert_width_spec(text@),
{
    let s = chars_of(text);
    let r = convert_width_chars(&s);
    string_of(&r)
}

// ---------------------------------------------------------------------------
// Combining marks
// ---------------------------------------------------------------------------

/// The kana `base` composed with the combining mark `mark` (U+3099 dakuten,
/// U+309A handakuten), when the pair has a composed form.
pub open spec fn compose_mark(base: char, mark: char) -> Option<char> {
    if mark == '\u{3099}' {
        pair_lookup(COMBINING_DAKUTEN@, base)
    } else if mark == '\u{309A}' {
        pair_lookup(COMBINING_HANDAKUTEN@, base)
    } else {
        None
    }
}

fn compose_mark_of(base: char, mark: char) -> (r: Option<char>)
    ensures
        r == compose_mark(base, mark),
{
    if mark == '\u{3099}' {
        lookup_pair(&COMBINING_DAKUTEN, base)
    } else if mark == '\u{309A}' {
        lookup_pair(&COMBINING_HANDAKUTEN, base)
    } else {
        None
    }
}

/// Combining-mark composition read from the front: every kana followed by a
/// combining mark it composes with becomes the composed kana.
pub open spec fn compose_spec(s: Seq<char>) -> Seq<char>
    decreases s.len(),
{
    if s.len() == 0 {
        s
    } else if s.len() >= 2 && compose_mark(s[0], s[1]) is Some {
        seq![compose_mark(s[0], s[1])->0] + compose_spec(s.skip(2))
    } else {
        seq![s[0]] + compose_spec(s.skip(1))
    }
}

fn compose_chars(s: &Vec<char>) -> (r: Vec<char>)
    ensures
        r@ == compose_spec(s@),
{
    let n = s.len();
    let mut out: Vec<char> = Vec::new();
    let mut i: usize = 0;
    proof {
        assert(s@.skip(0) =~= s@);
        assert(out@ + compose_spec(s@.skip(0)) =~= compose_spec(s@));
    }
    while i < n
        invariant
            i <= n == s.len(),
            out@ + compose_spec(s@.skip(i as int)) == compose_spec(s@),
        decreases n - i,
    {
        let ghost rest = s@.skip(i as int);
        let c = s[i];
        proof {
            assert(rest[0] == c);
            if i + 1 < n {
                assert(rest[1] == s@[i + 1]);
            }
        }
        if i + 1 < n {
            if let Some(m) = compose_mark_of(c, s[i + 1]) {
                out.push(m);
                proof {
                    assert(rest.skip(2) =~= s@.skip(i + 2));
                    assert(out@ + compose_spec(s@.skip(i + 2)) =~= old_out_plus(
                        out@, m, compose_spec(s@.skip(i + 2)),
                    ));
                }
                i += 2;
                continue;
            }
        }
        out.push(c);
        proof {
            assert(rest.skip(1) =~= s@.skip(i + 1));
            assert(out@ + compose_spec(s@.skip(i + 1)) =~= old_out_plus(
                out@, c, compose_spec(s@.skip(i + 1)),
            ));
        }
        i += 1;
    }
    proof {
        assert(s@.skip(n as int) =~= Seq::<char>::empty());
        assert(out@ + Seq::<char>::empty() =~= out@);
    }
    out
}

/// Normalize combining characters (e.g. か + ゙ = が).
pub fn normalize_combining_characters(text: &str) -> (r: String)
    ensures
        r@ == compose_spec(text@),
{
    let s = chars_of(text);
    let r = compose_chars(&s);
    string_of(&r)
}

// ---------------------------------------------------------------------------
// Lookup-variant fold
// ---------------------------------------------------------------------------

/// What the fold emits for `c` after having emitted `done`: an iteration mark
/// repeats the last emitted kana of its own script (the voiced marks voice the
/// repeat when that kana has a voiced form), and is left as-is otherwise; any
/// other character is replaced by its lookup variant, or kept.
pub open spec fn fold_step(done: Seq<char>, c: char) -> Seq<char> {
    let hira = done.len() > 0 && is_hiragana(done.last());
    let kata = done.len() > 0 && is_katakana(done.last());
    if c == 'ゝ' {
        seq![if hira { done.last() } else { c }]
    } else if c == 'ゞ' {
        seq![
            if hira {
                match pair_lookup(HIRAGANA_VOICED@, done.last()) {
                    Some(v) => v,
                    None => done.last(),
                }
            } else {
                c
            },
        ]
    } else if c == 'ヽ' {
        seq![if kata { done.last() } else { c }]
    } else if c == 'ヾ' {
        seq![
            if kata {
                match pair_lookup(KATAKANA_VOICED@, done.last()) {
                    Some(v) => v,
                    None => done.last(),
                }
            } else {
                c
            },
        ]
    } else {
        match lookup_variant(c) {
            Some(t) => t,
            None => seq![c],
        }
    }
}

/// The lookup-variant fold of `s`, one character at a time over what has
/// already been emitted.
pub open spec fn fold_spec(s: Seq<char>) -> Seq<char>
    decreases s.len(),
{
    if s.len() == 0 {
        s
    } else {
        let done = fold_spec(s.drop_last());
        done + fold_step(done, s.last())
    }
}

fn fold_step_exec(out: &mut Vec<char>, c: char)
    ensures
        final(out)@ == old(out)@ + fold_step(old(out)@, c),
{
    let n = out.len();
    let hira = n > 0 && hiragana_char(out[n - 1]);
    let kata = n > 0 && katakana_char(out[n - 1]);
    let ghost done = out@;
    if c == 'ゝ' {
        let e = if hira {
            out[n - 1]
        } else {
            c
        };
        out.push(e);
        proof {
            assert(out@ =~= done + seq![e]);
        }
    } else if c == 'ゞ' {
        let e = if hira {
            match lookup_pair(&HIRAGANA_VOICED, out[n - 1]) {
                Some(v) => v,
                None => out[n - 1],
            }
        } else {
            c
        };
        out.push(e);
        proof {
            assert(out@ =~= done + seq![e]);
        }
    } else if c == 'ヽ' {
        let e = if kata {
            out[n - 1]
        } else {
            c
        };
        out.push(e);
        proof {
            assert(out@ =~= done + seq![e]);
        }
    } else if c == 'ヾ' {
        let e = if kata {
            match lookup_pair(&KATAKANA_VOICED, out[n - 1]) {
                Some(v) => v,
                None => out[n - 1],
            }
        } else {
            c
        };
        out.push(e);
        proof {
            assert(out@ =~= done + seq![e]);
        }
    } else {
        match lookup_variant_of(c) {
            Some(t) => {
                let mut k: usize = 0;
                while k < t.len()
                    invariant
                        k <= t.len(),
                        out@ == done + t@.take(k as int),
                    decreases t.len() - k,
                {
                    out.push(t[k]);
                    proof {
                        assert(t@.take(k + 1) =~= t@.take(k as int).push(t@[k as int]));
                        assert(out@ =~= done + t@.take(k + 1));
                    }
                    k += 1;
                }
                proof {
                    assert(t@.take(t.len() as int) =~= t@);
                }
            },
            None => {
                out.push(c);
                proof {
                    assert(out@ =~= done + seq![c]);
                }
            },
        }
    }
}

fn fold_chars(s: &Vec<char>) -> (r: Vec<char>)
    ensures
        r@ == fold_spec(s@),
{
    let mut out: Vec<char> = Vec::new();
    let mut i: usize = 0;
    proof {
        assert(s@.take(0) =~= Seq::<char>::empty());
    }
    while i < s.len()
        invariant
            i <= s.len(),
            out@ == fold_spec(s@.take(i as int)),
        decreases s.len() - i,
    {
        proof {
            let t = s@.take(i + 1);
            assert(t.drop_last() =~= s@.take(i as int));
            assert(t.last() == s@[i as int]);
        }
        fold_step_exec(&mut out, s[i]);
        i += 1;
    }
    proof {
        assert(s@.take(s.len() as int) =~= s@);
    }
    out
}

/// Fold the lookup variant characters and expand the iteration marks
/// `ゝ`/`ゞ`/`ヽ`/`ヾ`, which repeat the preceding kana (`こゝろ` → `こころ`,
/// `たゞ` → `ただ`). A voiced mark voices the repeat when the preceding kana has
/// a voiced form and is a plain repeat otherwise (`まゞ` → `まま`). A mark whose
/// preceding character is not kana of the matching script is left as-is, and a
/// run of marks repeats the expanded run (`こゝゝ` → `こここ`).
pub fn fold_lookup_variants(text: &str) -> (r: String)
    ensures
        r@ == fold_spec(text@),
{
    let s = chars_of(text);
    let r = fold_chars(&s);
    string_of(&r)
}

/// The full lookup normalisation: width conversion, then the lookup-variant
/// fold, then combining-character composition.
pub open spec fn normalize_spec(s: Seq<char>) -> Seq<char> {
    compose_spec(fold_spec(convert_width_spec(s)))
}

/// Normalize Japanese text for lookup. Stage order is part of the contract:
/// width conversion first (so a mark sees the widened kana), then the
/// lookup-variant fold, then combining-character normalization.
pub fn normalize(text: &str) -> (r: String)
    ensures
        r@ == normalize_spec(text@),
{
    let s = chars_of(text);
    let w = convert_width_chars(&s);
    let f = fold_chars(&w);
    let c = compose_chars(&f);
    string_of(&c)
}

// ---------------------------------------------------------------------------
// Kana script folding and emphatics
// ---------------------------------------------------------------------------

/// The hiragana vowel a prolonged sound mark (ー) stands for after `prev`:
/// the vowel of the preceding kana, hiragana or katakana, plain, voiced,
/// semi-voiced or small. The あ, い and え段 lengthen with their own vowel;
/// the う and お段 lengthen with う, which is also what anything else gives.
pub open spec fn prolonged_vowel(prev: char) -> char {
    match prev {
        'あ' | 'ぁ' | 'か' | 'ゕ' | 'が' | 'さ' | 'ざ' | 'た' | 'だ' | 'な' | 'は' | 'ば' | 'ぱ' | 'ま' | 'や' | 'ゃ' | 'ら' | 'わ' | 'ゎ' | 'ア' | 'ァ' | 'カ' | 'ヵ' | 'ガ' | 'サ' | 'ザ' | 'タ' | 'ダ' | 'ナ' | 'ハ' | 'バ' | 'パ' | 'マ' | 'ヤ' | 'ャ' | 'ラ' | 'ワ' | 'ヮ' | 'ヷ' => 'あ',
        'い' | 'ぃ' | 'き' | 'ぎ' | 'し' | 'じ' | 'ち' | 'ぢ' | 'に' | 'ひ' | 'び' | 'ぴ' | 'み' | 'り' | 'ゐ' | 'イ' | 'ィ' | 'キ' | 'ギ' | 'シ' | 'ジ' | 'チ' | 'ヂ' | 'ニ' | 'ヒ' | 'ビ' | 'ピ' | 'ミ' | 'リ' | 'ヰ' | 'ヸ' => 'い',
        'え' | 'ぇ' | 'け' | 'ゖ' | 'げ' | 'せ' | 'ぜ' | 'て' | 'で' | 'ね' | 'へ' | 'べ' | 'ぺ' | 'め' | 'れ' | 'ゑ' | 'エ' | 'ェ' | 'ケ' | 'ヶ' | 'ゲ' | 'セ' | 'ゼ' | 'テ' | 'デ' | 'ネ' | 'ヘ' | 'ベ' | 'ペ' | 'メ' | 'レ' | 'ヱ' | 'ヹ' => 'え',
        _ => 'う',
    }
}

/// The vowel a prolonged sound mark stands for after `prev` (see
/// [`prolonged_vowel`]).
pub fn get_prolonged_hiragana(prev: char) -> (r: char)
    ensures
        r == prolonged_vowel(prev),
{
    match prev {
        'あ' | 'ぁ' | 'か' | 'ゕ' | 'が' | 'さ' | 'ざ' | 'た' | 'だ' | 'な' | 'は' | 'ば' | 'ぱ' | 'ま' | 'や' | 'ゃ' | 'ら' | 'わ' | 'ゎ' | 'ア' | 'ァ' | 'カ' | 'ヵ' | 'ガ' | 'サ' | 'ザ' | 'タ' | 'ダ' | 'ナ' | 'ハ' | 'バ' | 'パ' | 'マ' | 'ヤ' | 'ャ' | 'ラ' | 'ワ' | 'ヮ' | 'ヷ' => 'あ',
        'い' | 'ぃ' | 'き' | 'ぎ' | 'し' | 'じ' | 'ち' | 'ぢ' | 'に' | 'ひ' | 'び' | 'ぴ' | 'み' | 'り' | 'ゐ' | 'イ' | 'ィ' | 'キ' | 'ギ' | 'シ' | 'ジ' | 'チ' | 'ヂ' | 'ニ' | 'ヒ' | 'ビ' | 'ピ' | 'ミ' | 'リ' | 'ヰ' | 'ヸ' => 'い',
        'え' | 'ぇ' | 'け' | 'ゖ' | 'げ' | 'せ' | 'ぜ' | 'て' | 'で' | 'ね' | 'へ' | 'べ' | 'ぺ' | 'め' | 'れ' | 'ゑ' | 'エ' | 'ェ' | 'ケ' | 'ヶ' | 'ゲ' | 'セ' | 'ゼ' | 'テ' | 'デ' | 'ネ' | 'ヘ' | 'ベ' | 'ペ' | 'メ' | 'レ' | 'ヱ' | 'ヹ' => 'え',
        _ => 'う',
    }
}

/// Character `i` of `katakana_to_hiragana(s)`: katakana move 0x60 down onto
/// hiragana; a prolonged sound mark after another character becomes that
/// character's vowel; everything else is kept.
pub open spec fn hiragana_at(s: Seq<char>, i: int) -> char {
    let c = s[i];
    if is_katakana(c) {
        ((c as u32 - 0x60) as u32) as char
    } else if c == 'ー' && i > 0 {
        prolonged_vowel(s[i - 1])
    } else {
        c
    }
}

pub open spec fn katakana_to_hiragana_spec(s: Seq<char>) -> Seq<char> {
    Seq::new(s.len(), |i: int| hiragana_at(s, i))
}

fn hiragana_of_katakana(c: char) -> (r: char)
    requires
        is_katakana(c),
    ensures
        r == ((c as u32 - 0x60) as u32) as char,
{
    let x: u32 = c as u32 - 0x60;
    let r = char::from_u32(x).unwrap();
    proof {
        lemma_char_code(r, x);
    }
    r
}

pub fn katakana_to_hiragana_chars(s: &Vec<char>) -> (r: Vec<char>)
    ensures
        r@ == katakana_to_hiragana_spec(s@),
{
    let mut out: Vec<char> = Vec::new();
    let mut i: usize = 0;
    while i < s.len()
        invariant
            i <= s.len(),
            out@ =~= Seq::new(i as nat, |j: int| hiragana_at(s@, j)),
        decreases s.len() - i,
    {
        let c = s[i];
        let e = if katakana_char(c) {
            hiragana_of_katakana(c)
        } else if c == 'ー' && i > 0 {
            get_prolonged_hiragana(s[i - 1])
        } else {
            c
        };
        out.push(e);
        i += 1;
    }
    out
}

/// Convert katakana to hiragana, handling prolonged sound marks (ー).
pub fn katakana_to_hiragana(text: &str) -> (r: String)
    ensures
        r@ == katakana_to_hiragana_spec(text@),
{
    let s = chars_of(text);
    let r = katakana_to_hiragana_chars(&s);
    string_of(&r)
}

/// The emphatic characters a run of which collapses to one.
pub open spec fn is_emphatic(c: char) -> bool {
    c == 'っ' || c == 'ッ' || c == 'ー' || c == '～'
}

/// `s` with every emphatic character dropped that repeats the character
/// emitted just before it.
pub open spec fn collapse_emphatic_spec(s: Seq<char>) -> Seq<char>
    decreases s.len(),
{
    if s.len() == 0 {
        s
    } else {
        let done = collapse_emphatic_spec(s.drop_last());
        let c = s.last();
        if done.len() > 0 && is_emphatic(c) && c == done.last() {
            done
        } else {
            done.push(c)
        }
    }
}

/// Collapse consecutive emphatic characters (っ, ッ, ー, ～).
pub fn collapse_emphatic(text: &str) -> (r: String)
    ensures
        r@ == collapse_emphatic_spec(text@),
{
    let s = chars_of(text);
    let mut out: Vec<char> = Vec::new();
    let mut i: usize = 0;
    proof {
        assert(s@.take(0) =~= Seq::<char>::empty());
    }
    while i < s.len()
        invariant
            i <= s.len(),
            out@ == collapse_emphatic_spec(s@.take(i as int)),
        decreases s.len() - i,
    {
        proof {
            let t = s@.take(i + 1);
            assert(t.drop_last() =~= s@.take(i as int));
            assert(t.last() == s@[i as int]);
        }
        let c = s[i];
        let n = out.len();
        if !(n > 0 && (c == 'っ' || c == 'ッ' || c == 'ー' || c == '～') && c == out[n - 1]) {
            out.push(c);
        }
        i += 1;
    }
    proof {
        assert(s@.take(s.len() as int) =~= s@);
    }
    string_of(&out)
}

// ---------------------------------------------------------------------------
// Vertical text
// ---------------------------------------------------------------------------

/// A character as vertical text shows it: ASCII `?` becomes fullwidth
/// `？`, and the horizontal ellipses become the vertical presentation forms.
pub open spec fn vertical_punctuation_of(c: char) -> char {
    if c == '?' {
        '？'
    } else if c == '…' {
        '︙'
    } else if c == '‥' {
        '︰'
    } else {
        c
    }
}

pub fn vertical_punctuation_char(c: char) -> (r: char)
    ensures
        r == vertical_punctuation_of(c),
{
    if c == '?' {
        '？'
    } else if c == '…' {
        '︙'
    } else if c == '‥' {
        '︰'
    } else {
        c
    }
}

/// Punctuation as vertical text shows it, applied when vertical lines are
/// emitted: [`vertical_punctuation_char`] on every character.
pub fn vertical_punctuation(text: &str) -> (r: String)
    ensures
        r@ == text@.map_values(|c: char| vertical_punctuation_of(c)),
{
    let s = chars_of(text);
    let mut out: Vec<char> = Vec::new();
    let mut i: usize = 0;
    while i < s.len()
        invariant
            i <= s.len(),
            out@ =~= s@.take(i as int).map_values(|c: char| vertical_punctuation_of(c)),
        decreases s.len() - i,
    {
        out.push(vertical_punctuation_char(s[i]));
        i += 1;
    }
    proof {
        assert(s@.take(s.len() as int) =~= s@);
    }
    string_of(&out)
}

/// The Unicode vertical presentation form (U+FE10–U+FE48) of a CJK or ASCII
/// punctuation mark, or the character itself when it has none.
pub open spec fn vertical_glyph(ch: char) -> char {
    match ch {
        ',' | '\u{FF0C}' => '\u{FE10}',
        '\u{3001}' => '\u{FE11}',
        '\u{3002}' | '\u{FF0E}' => '\u{FE12}',
        ':' | '\u{FF1A}' => '\u{FE13}',
        ';' | '\u{FF1B}' => '\u{FE14}',
        '!' | '\u{FF01}' => '\u{FE15}',
        '?' | '\u{FF1F}' => '\u{FE16}',
        '\u{3016}' => '\u{FE17}',
        '\u{3017}' => '\u{FE18}',
        '\u{2026}' => '\u{FE19}',
        '\u{2025}' => '\u{FE30}',
        '\u{2014}' | '\u{30FC}' => '\u{FE31}',
        '\u{2013}' => '\u{FE32}',
        '_' => '\u{FE33}',
        '(' | '\u{FF08}' => '\u{FE35}',
        ')' | '\u{FF09}' => '\u{FE36}',
        '{' => '\u{FE37}',
        '}' => '\u{FE38}',
        '\u{3014}' => '\u{FE39}',
        '\u{3015}' => '\u{FE3A}',
        '\u{3010}' => '\u{FE3B}',
        '\u{3011}' => '\u{FE3C}',
        '\u{300A}' => '\u{FE3D}',
        '\u{300B}' => '\u{FE3E}',
        '\u{3008}' => '\u{FE3F}',
        '\u{3009}' => '\u{FE40}',
        '\u{300C}' => '\u{FE41}',
        '\u{300D}' => '\u{FE42}',
        '\u{300E}' => '\u{FE43}',
        '\u{300F}' => '\u{FE44}',
        '[' | '\u{FF3B}' => '\u{FE47}',
        ']' | '\u{FF3D}' => '\u{FE48}',
        _ => ch,
    }
}

/// Convert a character to its vertical-mode presentation form, the overlay's
/// fallback for characters the font's `vert`/`vrt2` feature does not cover.
pub fn to_vertical_glyph(ch: char) -> (r: char)
    ensures
        r == vertical_glyph(ch),
{
    match ch {
        ',' | '\u{FF0C}' => '\u{FE10}',
        '\u{3001}' => '\u{FE11}',
        '\u{3002}' | '\u{FF0E}' => '\u{FE12}',
        ':' | '\u{FF1A}' => '\u{FE13}',
        ';' | '\u{FF1B}' => '\u{FE14}',
        '!' | '\u{FF01}' => '\u{FE15}',
        '?' | '\u{FF1F}' => '\u{FE16}',
        '\u{3016}' => '\u{FE17}',
        '\u{3017}' => '\u{FE18}',
        '\u{2026}' => '\u{FE19}',
        '\u{2025}' => '\u{FE30}',
        '\u{2014}' | '\u{30FC}' => '\u{FE31}',
        '\u{2013}' => '\u{FE32}',
        '_' => '\u{FE33}',
        '(' | '\u{FF08}' => '\u{FE35}',
        ')' | '\u{FF09}' => '\u{FE36}',
        '{' => '\u{FE37}',
        '}' => '\u{FE38}',
        '\u{3014}' => '\u{FE39}',
        '\u{3015}' => '\u{FE3A}',
        '\u{3010}' => '\u{FE3B}',
        '\u{3011}' => '\u{FE3C}',
        '\u{300A}' => '\u{FE3D}',
        '\u{300B}' => '\u{FE3E}',
        '\u{3008}' => '\u{FE3F}',
        '\u{3009}' => '\u{FE40}',
        '\u{300C}' => '\u{FE41}',
        '\u{300D}' => '\u{FE42}',
        '\u{300E}' => '\u{FE43}',
        '\u{300F}' => '\u{FE44}',
        '[' | '\u{FF3B}' => '\u{FE47}',
        ']' | '\u{FF3D}' => '\u{FE48}',
        _ => ch,
    }
}

/// Half-width characters: ASCII and halfwidth katakana advance at
/// 0.5 em; everything else at 1.0 em.
pub open spec fn half_width(ch: char) -> bool {
    ch as u32 <= 0x7E || (0xFF61 <= ch as u32 && ch as u32 <= 0xFFDC)
}

pub fn is_half_width(ch: char) -> (r: bool)
    ensures
        r == half_width(ch),
{
    let cp = ch as u32;
    cp <= 0x7E || (0xFF61 <= cp && cp <= 0xFFDC)
}

/// CJK ideographs (and the iteration marks 々/〻).
pub open spec fn kanji(c: char) -> bool {
    c == '々' || c == '〻' || (0x3400 <= c as u32 && c as u32 <= 0x4DBF) || (0x4E00 <= c as u32
        && c as u32 <= 0x9FFF) || (0xF900 <= c as u32 && c as u32 <= 0xFAFF)
}

/// True for CJK ideographs (and the iteration marks 々/〻).
pub fn is_kanji_char(c: char) -> (r: bool)
    ensures
        r == kanji(c),
{
    c == '々' || c == '〻' || (0x3400 <= c as u32 && c as u32 <= 0x4DBF) || (0x4E00 <= c as u32
        && c as u32 <= 0x9FFF) || (0xF900 <= c as u32 && c as u32 <= 0xFAFF)
}

// ---------------------------------------------------------------------------
// KANJIDIC reading lists
// ---------------------------------------------------------------------------

/// `s` without its leading `-` characters (`str::trim_start_matches('-')`).
pub open spec fn strip_dashes(s: Seq<char>) -> Seq<char>
    decreases s.len(),
{
    if s.len() > 0 && s[0] == '-' {
        strip_dashes(s.drop_first())
    } else {
        s
    }
}

proof fn lemma_strip_dashes_skip(s: Seq<char>, i: int)
    requires
        0 <= i <= s.len(),
        forall|j: int| 0 <= j < i ==> #[trigger] s[j] == '-',
        i == s.len() || s[i] != '-',
    ensures
        strip_dashes(s) == s.skip(i),
    decreases i,
{
    if i == 0 {
        assert(s.skip(0) =~= s);
    } else {
        let t = s.drop_first();
        assert forall|j: int| 0 <= j < i - 1 implies #[trigger] t[j] == '-' by {
            assert(t[j] == s[j + 1]);
        }
        lemma_strip_dashes_skip(t, i - 1);
        assert(t.skip(i - 1) =~= s.skip(i));
    }
}

/// The readings kept from split pieces: each piece loses its leading dashes,
/// and pieces left empty are dropped.
pub open spec fn kept_readings(pieces: Seq<Seq<char>>) -> Seq<Seq<char>>
    decreases pieces.len(),
{
    if pieces.len() == 0 {
        Seq::empty()
    } else {
        let done = kept_readings(pieces.drop_last());
        let p = strip_dashes(pieces.last());
        if p.len() > 0 {
            done.push(p)
        } else {
            done
        }
    }
}

/// The readings of a space-separated (ASCII or ideographic space) KANJIDIC
/// kana list.
pub open spec fn kana_list_spec(raw: Seq<char>) -> Seq<Seq<char>> {
    kept_readings(split_when(raw, either_char(' ', '\u{3000}')))
}

/// Split a space-separated KANJIDIC kana list into readings, stripping the
/// leading `-` from suffix-only readings.
pub fn split_kana_list(raw: &str) -> (r: Vec<String>)
    ensures
        r.deep_view() == kana_list_spec(raw@),
{
    let s = chars_of(raw);
    let pieces = split_on(&s, ' ', '\u{3000}');
    let ghost ps = pieces.deep_view();
    let mut out: Vec<String> = Vec::new();
    let mut i: usize = 0;
    proof {
        assert(ps.take(0) =~= Seq::<Seq<char>>::empty());
        assert(out.deep_view() =~= Seq::<Seq<char>>::empty());
    }
    while i < pieces.len()
        invariant
            i <= pieces.len(),
            ps == pieces.deep_view(),
            out.deep_view() == kept_readings(ps.take(i as int)),
        decreases pieces.len() - i,
    {
        let piece = &pieces[i];
        proof {
            lemma_deep_view_chars(*piece);
            assert(ps[i as int] == piece@);
            let t = ps.take(i + 1);
            assert(t.drop_last() =~= ps.take(i as int));
            assert(t.last() == piece@);
        }
        let mut k: usize = 0;
        while k < piece.len() && piece[k] == '-'
            invariant
                k <= piece.len(),
                forall|j: int| 0 <= j < k ==> #[trigger] piece@[j] == '-',
            decreases piece.len() - k,
        {
            k += 1;
        }
        proof {
            lemma_strip_dashes_skip(piece@, k as int);
            assert(piece@.skip(k as int) =~= piece@.subrange(k as int, piece.len() as int));
        }
        if k < piece.len() {
            let kept = copy_range(piece, k, piece.len());
            let reading = string_of(&kept);
            let ghost before = out.deep_view();
            let ghost ov = out@;
            out.push(reading);
            proof {
                assert(out.deep_view() =~= before.push(kept@)) by {
                    assert forall|j: int| 0 <= j < before.len() implies #[trigger] out.deep_view()[j]
                        == before[j] by {
                        assert(out@[j] == ov[j]);
                    }
                }
            }
        }
        i += 1;
    }
    proof {
        assert(ps.take(pieces.len() as int) =~= ps);
    }
    out
}

// ---------------------------------------------------------------------------
// The measured fold table as owned data
// ---------------------------------------------------------------------------

/// The Unihan-derived fold table as owned data, for hosts that need the table
/// itself: every `(variant, canonical)` pair, in code-point order of the
/// variant. All pairs are single-character.
pub fn measured_variant_fold() -> (r: Vec<(char, String)>)
    ensures
        r.len() == MEASURED_VARIANTS@.len(),
        forall|i: int|
            0 <= i < r.len() ==> #[trigger] r@[i].0 == MEASURED_VARIANTS@[i].0 && r@[i].1@ == seq![
                MEASURED_VARIANTS@[i].1,
            ],
{
    let mut out: Vec<(char, String)> = Vec::new();
    let mut i: usize = 0;
    while i < MEASURED_VARIANTS.len()
        invariant
            i <= MEASURED_VARIANTS@.len(),
            out.len() == i,
            forall|j: int|
                0 <= j < i ==> #[trigger] out@[j].0 == MEASURED_VARIANTS@[j].0 && out@[j].1@
                    == seq![MEASURED_VARIANTS@[j].1],
        decreases MEASURED_VARIANTS@.len() - i,
    {
        let (v, c) = MEASURED_VARIANTS[i];
        let mut s = String::new();
        s.push(c);
        proof {
            assert(s@ =~= seq![c]);
        }
        out.push((v, s));
        i += 1;
    }
    out
}

// ---------------------------------------------------------------------------
// Furigana alignment
// ---------------------------------------------------------------------------

/// One furigana run: `base` surface text with optional `ruby` above it.
#[derive(Debug, Clone, PartialEq)]
pub struct RubySegment {
    pub base: String,
    pub ruby: Option<String>,
}

/// A segment as plain values: base text and optional ruby text.
pub type SegmentView = (Seq<char>, Option<Seq<char>>);

impl View for RubySegment {
    type V = SegmentView;

    open spec fn view(&self) -> SegmentView {
        (
            self.base@,
            match self.ruby {
                Some(r) => Some(r@),
                None => None,
            },
        )
    }
}

pub open spec fn segments_view(v: Seq<RubySegment>) -> Seq<SegmentView> {
    v.map_values(|s: RubySegment| s@)
}

/// Join two segment lists, merging a trailing plain (ruby-less) segment of `a`
/// with a leading plain segment of `b` into one plain run.
pub open spec fn glue(a: Seq<SegmentView>, b: Seq<SegmentView>) -> Seq<SegmentView> {
    if a.len() > 0 && b.len() > 0 && a.last().1 is None && b[0].1 is None {
        a.drop_last() + seq![(a.last().0 + b[0].0, None::<Seq<char>>)] + b.skip(1)
    } else {
        a + b
    }
}

/// The hiragana form of a single character (the fold of a one-character
/// string).
pub open spec fn hiragana_of(c: char) -> char {
    hiragana_at(seq![c], 0)
}

/// End of the kanji run that starts at `i`.
pub open spec fn kanji_run_end(t: Seq<char>, i: int) -> int
    decreases t.len() - i,
{
    if i < 0 || i >= t.len() || !kanji(t[i]) {
        i
    } else {
        kanji_run_end(t, i + 1)
    }
}

/// First index at or after `from` where `n` holds `a`.
pub open spec fn find_from(n: Seq<char>, from: int, a: char) -> Option<int>
    decreases n.len() - from,
{
    if from < 0 || from >= n.len() {
        None
    } else if n[from] == a {
        Some(from)
    } else {
        find_from(n, from + 1, a)
    }
}

/// Align the term from `ti` against the reading from `ri` (`n` is the reading
/// folded to hiragana): a kana character of the term must equal the reading
/// at that point and becomes plain text; a kanji run takes as ruby the reading
/// up to the first occurrence of the next kana anchor (or all that is left at
/// the end of the term), and that ruby must not be empty. The whole reading
/// must be consumed.
pub open spec fn align_from(t: Seq<char>, r: Seq<char>, n: Seq<char>, ti: int, ri: int) -> Option<
    Seq<SegmentView>,
>
    decreases t.len() - ti, 1int,
{
    if ti < 0 || ti >= t.len() {
        if ri == n.len() {
            Some(Seq::empty())
        } else {
            None
        }
    } else if !kanji(t[ti]) {
        if 0 <= ri < n.len() && hiragana_of(t[ti]) == n[ri] {
            match align_from(t, r, n, ti + 1, ri + 1) {
                Some(rest) => Some(glue(seq![(seq![t[ti]], None::<Seq<char>>)], rest)),
                None => None,
            }
        } else {
            None
        }
    } else {
        let tj = kanji_run_end(t, ti);
        if tj < t.len() {
            match find_from(n, ri, hiragana_of(t[tj])) {
                Some(idx) => if idx > ri && tj > ti {
                    match align_from(t, r, n, tj, idx) {
                        Some(rest) => Some(
                            seq![(t.subrange(ti, tj), Some(r.subrange(ri, idx)))] + rest,
                        ),
                        None => None,
                    }
                } else {
                    None
                },
                None => None,
            }
        } else if 0 <= ri < r.len() {
            Some(seq![(t.subrange(ti, t.len() as int), Some(r.subrange(ri, r.len() as int)))])
        } else {
            None
        }
    }
}

/// The furigana alignment of `term` against `reading`.
pub open spec fn align_spec(term: Seq<char>, reading: Seq<char>) -> Option<Seq<SegmentView>> {
    if term.len() == 0 || reading.len() == 0 {
        None
    } else if term == reading {
        Some(seq![(term, None::<Seq<char>>)])
    } else {
        align_from(term, reading, katakana_to_hiragana_spec(reading), 0, 0)
    }
}

/// `glue` lifted over an alignment that may have failed.
pub open spec fn glue_opt(a: Seq<SegmentView>, b: Option<Seq<SegmentView>>) -> Option<
    Seq<SegmentView>,
> {
    match b {
        Some(rest) => Some(glue(a, rest)),
        None => None,
    }
}

proof fn lemma_glue_kana(a: Seq<SegmentView>, c: char, rest: Seq<SegmentView>)
    ensures
        glue(a, glue(seq![(seq![c], None::<Seq<char>>)], rest)) == glue(
            glue(a, seq![(seq![c], None::<Seq<char>>)]),
            rest,
        ),
{
    let k: SegmentView = (seq![c], None::<Seq<char>>);
    let ks = seq![k];
    if a.len() > 0 && a.last().1 is None {
        let a1 = a.drop_last() + seq![(a.last().0 + seq![c], None::<Seq<char>>)];
        assert(glue(a, ks) == a1);
        if rest.len() > 0 && rest[0].1 is None {
            let m = seq![(seq![c] + rest[0].0, None::<Seq<char>>)] + rest.skip(1);
            assert(glue(ks, rest) =~= m);
            assert(a1.last().1 is None);
            assert(a1.drop_last() =~= a.drop_last());
            assert((a.last().0 + seq![c]) + rest[0].0 =~= a.last().0 + (seq![c] + rest[0].0));
            assert(m[0] == (seq![c] + rest[0].0, None::<Seq<char>>));
            assert(m.skip(1) =~= rest.skip(1));
            assert(glue(a, m) =~= glue(a1, rest));
        } else {
            assert(glue(ks, rest) == ks + rest);
            assert((ks + rest)[0] == k);
            assert((ks + rest).skip(1) =~= rest);
            assert(glue(a, ks + rest) =~= a1 + rest);
        }
    } else {
        assert(glue(a, ks) == a + ks);
        if rest.len() > 0 && rest[0].1 is None {
            let m = seq![(seq![c] + rest[0].0, None::<Seq<char>>)] + rest.skip(1);
            assert(glue(ks, rest) =~= m);
            assert((a + ks).last() == k);
            assert((a + ks).drop_last() =~= a);
            assert(glue(a + ks, rest) =~= a + m);
            if a.len() > 0 {
                assert(m[0].1 is None);
            }
            assert(glue(a, m) =~= a + m);
        } else {
            assert(glue(ks, rest) == ks + rest);
            assert(glue(a, ks + rest) =~= a + ks + rest);
            assert(glue(a + ks, rest) =~= a + ks + rest);
        }
    }
}

proof fn lemma_glue_ruby(a: Seq<SegmentView>, k: SegmentView, rest: Seq<SegmentView>)
    requires
        k.1 is Some,
    ensures
        glue(a, seq![k] + rest) == glue(a + seq![k], rest),
        glue(a + seq![k], Seq::empty()) == a + seq![k],
{
    assert((seq![k] + rest)[0] == k);
    assert(glue(a, seq![k] + rest) =~= a + seq![k] + rest);
    assert((a + seq![k]).last() == k);
    assert(glue(a + seq![k], rest) =~= a + seq![k] + rest);
    assert(glue(a + seq![k], Seq::empty()) =~= a + seq![k]);
}

fn hiragana_of_char(c: char) -> (r: char)
    ensures
        r == hiragana_of(c),
{
    if katakana_char(c) {
        hiragana_of_katakana(c)
    } else {
        c
    }
}

/// Align a dictionary reading against its headword so ruby is shown only over
/// kanji spans, with okurigana/kana rendered as plain base text; `None` when
/// the reading cannot be aligned
/// (callers fall back to full-reading ruby).
pub fn align_furigana(term: &str, reading: &str) -> (r: Option<Vec<RubySegment>>)
    ensures
        match r {
            Some(v) => align_spec(term@, reading@) == Some(segments_view(v@)),
            None => align_spec(term@, reading@) is None,
        },
{
    let t = chars_of(term);
    let rd = chars_of(reading);
    if t.len() == 0 || rd.len() == 0 {
        return None;
    }
    if chars_equal(&t, &rd) {
        let seg = RubySegment { base: string_of(&t), ruby: None };
        let v = vec![seg];
        proof {
            assert(segments_view(v@) =~= seq![(term@, None::<Seq<char>>)]);
        }
        return Some(v);
    }
    let n = katakana_to_hiragana_chars(&rd);
    let ghost tt = t@;
    let ghost rr = rd@;
    let ghost nn = n@;
    let ghost goal = align_from(tt, rr, nn, 0, 0);
    proof {
        assert(goal == align_spec(term@, reading@));
    }
    let mut segs: Vec<RubySegment> = Vec::new();
    let mut ti: usize = 0;
    let mut ri: usize = 0;
    proof {
        assert(segments_view(segs@) =~= Seq::<SegmentView>::empty());
        match align_from(tt, rr, nn, 0, 0) {
            Some(b) => assert(glue(Seq::empty(), b) =~= b),
            None => {},
        }
    }
    while ti < t.len()
        invariant
            tt == t@,
            rr == rd@,
            nn == n@,
            n@.len() == rd@.len(),
            ti <= t.len(),
            ri <= n.len(),
            goal == align_from(tt, rr, nn, 0, 0),
            goal == align_spec(term@, reading@),
            goal == glue_opt(segments_view(segs@), align_from(tt, rr, nn, ti as int, ri as int)),
        decreases t.len() - ti,
    {
        let c = t[ti];
        let ghost before = segments_view(segs@);
        if !is_kanji_char(c) {
            if ri >= n.len() {
                return None;
            }
            let h = hiragana_of_char(c);
            if h != n[ri] {
                return None;
            }
            let k = segs.len();
            let ghost ks = seq![(seq![c], None::<Seq<char>>)];
            if k > 0 && segs[k - 1].ruby.is_none() {
                let ghost old_segs = segs@;
                let mut last = segs.pop().unwrap();
                proof {
                    assert(last == old_segs.last());
                    assert(segs@ =~= old_segs.drop_last());
                }
                last.base.push(c);
                segs.push(last);
                proof {
                    let nv = segments_view(segs@);
                    assert(before.last() == old_segs.last()@);
                    assert(before.last().1 is None);
                    assert(ks.skip(1) =~= Seq::<SegmentView>::empty());
                    assert(nv.drop_last() =~= before.drop_last());
                    assert(nv.last() == (before.last().0 + seq![c], None::<Seq<char>>));
                    assert(nv =~= glue(before, ks));
                }
            } else {
                let mut b = String::new();
                b.push(c);
                segs.push(RubySegment { base: b, ruby: None });
                proof {
                    assert(segments_view(segs@) =~= glue(before, ks));
                }
            }
            proof {
                match align_from(tt, rr, nn, ti + 1, ri + 1) {
                    Some(rest) => lemma_glue_kana(before, c, rest),
                    None => {},
                }
            }
            ti += 1;
            ri += 1;
        } else {
            let mut tj = ti;
            while tj < t.len() && is_kanji_char(t[tj])
                invariant
                    ti <= tj <= t.len(),
                    tt == t@,
                    kanji_run_end(tt, ti as int) == kanji_run_end(tt, tj as int),
                decreases t.len() - tj,
            {
                tj += 1;
            }
            let base = copy_range(&t, ti, tj);
            if tj < t.len() {
                let anchor = hiragana_of_char(t[tj]);
                let mut idx = ri;
                while idx < n.len() && n[idx] != anchor
                    invariant
                        ri <= idx <= n.len(),
                        nn == n@,
                        find_from(nn, ri as int, anchor) == find_from(nn, idx as int, anchor),
                    decreases n.len() - idx,
                {
                    idx += 1;
                }
                if idx >= n.len() || idx == ri {
                    return None;
                }
                let ruby = copy_range(&rd, ri, idx);
                let seg = RubySegment { base: string_of(&base), ruby: Some(string_of(&ruby)) };
                let ghost k = seg@;
                segs.push(seg);
                proof {
                    assert(segments_view(segs@) =~= before + seq![k]);
                    match align_from(tt, rr, nn, tj as int, idx as int) {
                        Some(rest) => lemma_glue_ruby(before, k, rest),
                        None => {},
                    }
                }
                ri = idx;
            } else {
                if ri >= rd.len() {
                    return None;
                }
                let ruby = copy_range(&rd, ri, rd.len());
                let seg = RubySegment { base: string_of(&base), ruby: Some(string_of(&ruby)) };
                let ghost k = seg@;
                segs.push(seg);
                proof {
                    assert(segments_view(segs@) =~= before + seq![k]);
                    lemma_glue_ruby(before, k, Seq::empty());
                    assert(seq![k] + Seq::<SegmentView>::empty() =~= seq![k]);
                }
                ri = rd.len();
            }
            ti = tj;
        }
    }
    if ri != n.len() {
        return None;
    }
    proof {
        assert(glue(segments_view(segs@), Seq::empty()) =~= segments_view(segs@));
    }
    Some(segs)
}


/// The base texts of an alignment, joined.
pub open spec fn joined_bases(segs: Seq<SegmentView>) -> Seq<char>
    decreases segs.len(),
{
    if segs.len() == 0 {
        Seq::empty()
    } else {
        joined_bases(segs.drop_last()) + segs.last().0
    }
}

/// Every segment with ruby has a non-empty base made of kanji and non-empty
/// ruby.
pub open spec fn ruby_over_kanji(segs: Seq<SegmentView>) -> bool {
    forall|i: int|
        0 <= i < segs.len() && #[trigger] segs[i].1 is Some ==> {
            &&& segs[i].0.len() > 0
            &&& segs[i].1.unwrap().len() > 0
            &&& forall|j: int| 0 <= j < segs[i].0.len() ==> kanji(#[trigger] segs[i].0[j])
        }
}

proof fn lemma_bases_append(a: Seq<SegmentView>, b: Seq<SegmentView>)
    ensures
        joined_bases(a + b) == joined_bases(a) + joined_bases(b),
    decreases b.len(),
{
    if b.len() == 0 {
        assert(a + b =~= a);
        assert(joined_bases(a) + joined_bases(b) =~= joined_bases(a));
    } else {
        lemma_bases_append(a, b.drop_last());
        assert((a + b).drop_last() =~= a + b.drop_last());
        assert((a + b).last() == b.last());
        assert(joined_bases(a) + joined_bases(b) =~= joined_bases(a) + joined_bases(b.drop_last()) + b.last().0);
    }
}

proof fn lemma_glue_keeps(a: Seq<SegmentView>, b: Seq<SegmentView>)
    requires
        ruby_over_kanji(a),
        ruby_over_kanji(b),
    ensures
        joined_bases(glue(a, b)) == joined_bases(a) + joined_bases(b),
        ruby_over_kanji(glue(a, b)),
{
    if a.len() > 0 && b.len() > 0 && a.last().1 is None && b[0].1 is None {
        let m: SegmentView = (a.last().0 + b[0].0, None::<Seq<char>>);
        let left = a.drop_last();
        let right = b.skip(1);
        lemma_bases_append(left + seq![m], right);
        lemma_bases_append(left, seq![m]);
        lemma_bases_append(seq![b[0]], right);
        assert(seq![b[0]] + right =~= b);
        assert(left.push(a.last()) =~= a);
        lemma_one_segment(m);
        lemma_one_segment(b[0]);
        assert(joined_bases(a) == joined_bases(left) + a.last().0);
        assert(joined_bases(glue(a, b)) =~= joined_bases(a) + joined_bases(b));
        let g = glue(a, b);
        assert forall|i: int| 0 <= i < g.len() && #[trigger] g[i].1 is Some implies {
            &&& g[i].0.len() > 0
            &&& g[i].1.unwrap().len() > 0
            &&& forall|j: int| 0 <= j < g[i].0.len() ==> kanji(#[trigger] g[i].0[j])
        } by {
            if i < left.len() {
                assert(g[i] == a[i]);
            } else if i > left.len() {
                assert(g[i] == b[i - left.len()]);
            }
        }
    } else {
        lemma_bases_append(a, b);
        let g = a + b;
        assert forall|i: int| 0 <= i < g.len() && #[trigger] g[i].1 is Some implies {
            &&& g[i].0.len() > 0
            &&& g[i].1.unwrap().len() > 0
            &&& forall|j: int| 0 <= j < g[i].0.len() ==> kanji(#[trigger] g[i].0[j])
        } by {
            if i < a.len() {
                assert(g[i] == a[i]);
            } else {
                assert(g[i] == b[i - a.len()]);
            }
        }
    }
}

proof fn lemma_kanji_run(t: Seq<char>, i: int)
    requires
        0 <= i <= t.len(),
    ensures
        i <= kanji_run_end(t, i) <= t.len(),
        forall|k: int| i <= k < kanji_run_end(t, i) ==> kanji(#[trigger] t[k]),
        kanji_run_end(t, i) < t.len() ==> !kanji(t[kanji_run_end(t, i)]),
    decreases t.len() - i,
{
    if i < t.len() && kanji(t[i]) {
        lemma_kanji_run(t, i + 1);
    }
}

proof fn lemma_find_from(n: Seq<char>, from: int, a: char)
    ensures
        find_from(n, from, a) matches Some(idx) ==> 0 <= from <= idx < n.len(),
    decreases n.len() - from,
{
    if 0 <= from < n.len() && n[from] != a {
        lemma_find_from(n, from + 1, a);
    }
}

proof fn lemma_one_segment(seg: SegmentView)
    ensures
        joined_bases(seq![seg]) == seg.0,
{
    let one = seq![seg];
    assert(one.drop_last() =~= Seq::<SegmentView>::empty());
    assert(joined_bases(one.drop_last()) == Seq::<char>::empty());
    assert(one.last() == seg);
    assert(joined_bases(one) == joined_bases(one.drop_last()) + one.last().0);
    assert(Seq::<char>::empty() + seg.0 =~= seg.0);
}

/// What an alignment from term position `ti` gives covers the rest of the
/// term, with ruby only over kanji runs.
proof fn lemma_align_from_covers(t: Seq<char>, r: Seq<char>, n: Seq<char>, ti: int, ri: int)
    requires
        0 <= ti <= t.len(),
        0 <= ri,
        n.len() == r.len(),
        align_from(t, r, n, ti, ri) is Some,
    ensures
        joined_bases(align_from(t, r, n, ti, ri).unwrap()) == t.skip(ti),
        ruby_over_kanji(align_from(t, r, n, ti, ri).unwrap()),
    decreases t.len() - ti,
{
    if ti == t.len() {
        assert(t.skip(ti) =~= Seq::<char>::empty());
    } else if !kanji(t[ti]) {
        let rest = align_from(t, r, n, ti + 1, ri + 1).unwrap();
        lemma_align_from_covers(t, r, n, ti + 1, ri + 1);
        let k: SegmentView = (seq![t[ti]], None::<Seq<char>>);
        lemma_one_segment(k);
        lemma_glue_keeps(seq![k], rest);
        assert(seq![t[ti]] + t.skip(ti + 1) =~= t.skip(ti));
    } else {
        let tj = kanji_run_end(t, ti);
        lemma_kanji_run(t, ti);
        if tj < t.len() {
            let idx = find_from(n, ri, hiragana_of(t[tj])).unwrap();
            lemma_find_from(n, ri, hiragana_of(t[tj]));
            let rest = align_from(t, r, n, tj, idx).unwrap();
            lemma_align_from_covers(t, r, n, tj, idx);
            let k: SegmentView = (t.subrange(ti, tj), Some(r.subrange(ri, idx)));
            lemma_one_segment(k);
            lemma_bases_append(seq![k], rest);
            assert(t.subrange(ti, tj) + t.skip(tj) =~= t.skip(ti));
            let g = seq![k] + rest;
            assert forall|i: int| 0 <= i < g.len() && #[trigger] g[i].1 is Some implies {
                &&& g[i].0.len() > 0
                &&& g[i].1.unwrap().len() > 0
                &&& forall|j: int| 0 <= j < g[i].0.len() ==> kanji(#[trigger] g[i].0[j])
            } by {
                if i == 0 {
                    assert forall|j: int| 0 <= j < g[i].0.len() implies kanji(#[trigger] g[i].0[j]) by {
                        assert(g[i].0[j] == t[ti + j]);
                    }
                } else {
                    assert(g[i] == rest[i - 1]);
                }
            }
        } else {
            let k: SegmentView = (t.subrange(ti, t.len() as int), Some(r.subrange(ri, r.len() as int)));
            lemma_one_segment(k);
            assert(t.subrange(ti, t.len() as int) =~= t.skip(ti));
            let g = seq![k];
            assert forall|i: int| 0 <= i < g.len() && #[trigger] g[i].1 is Some implies {
                &&& g[i].0.len() > 0
                &&& g[i].1.unwrap().len() > 0
                &&& forall|j: int| 0 <= j < g[i].0.len() ==> kanji(#[trigger] g[i].0[j])
            } by {
                assert forall|j: int| 0 <= j < g[i].0.len() implies kanji(#[trigger] g[i].0[j]) by {
                    assert(g[i].0[j] == t[ti + j]);
                }
            }
        }
    }
}


/// The kana after which a long-vowel mark reads as あ.
pub open spec fn long_a_kana() -> Seq<char> {
    seq!['あ', 'ぁ', 'か', 'が', 'さ', 'ざ', 'た', 'だ', 'な', 'は', 'ば', 'ぱ', 'ま', 'や', 'ゃ', 'ら', 'わ', 'ゎ', 'ア', 'ァ', 'カ', 'ガ', 'サ', 'ザ', 'タ', 'ダ', 'ナ', 'ハ', 'バ', 'パ', 'マ', 'ヤ', 'ャ', 'ラ', 'ワ', 'ヮ']
}

/// The kana after which a long-vowel mark reads as い.
pub open spec fn long_i_kana() -> Seq<char> {
    seq!['い', 'ぃ', 'き', 'ぎ', 'し', 'じ', 'ち', 'ぢ', 'に', 'ひ', 'び', 'ぴ', 'み', 'り', 'イ', 'ィ', 'キ', 'ギ', 'シ', 'ジ', 'チ', 'ヂ', 'ニ', 'ヒ', 'ビ', 'ピ', 'ミ', 'リ']
}

/// The kana after which a long-vowel mark reads as え.
pub open spec fn long_e_kana() -> Seq<char> {
    seq!['え', 'ぇ', 'け', 'げ', 'せ', 'ぜ', 'て', 'で', 'ね', 'へ', 'べ', 'ぺ', 'め', 'れ', 'エ', 'ェ', 'ケ', 'ゲ', 'セ', 'ゼ', 'テ', 'デ', 'ネ', 'ヘ', 'ベ', 'ペ', 'メ', 'レ']
}

/// The kana after which a long-vowel mark reads as う.
pub open spec fn long_u_kana() -> Seq<char> {
    seq!['う', 'ぅ', 'く', 'ぐ', 'す', 'ず', 'つ', 'づ', 'ぬ', 'ふ', 'ぶ', 'ぷ', 'む', 'ゆ', 'ゅ', 'る', 'ウ', 'ゥ', 'ク', 'グ', 'ス', 'ズ', 'ツ', 'ヅ', 'ヌ', 'フ', 'ブ', 'プ', 'ム', 'ユ', 'ュ', 'ル', 'ヴ', 'お', 'ぉ', 'こ', 'ご', 'そ', 'ぞ', 'と', 'ど', 'の', 'ほ', 'ぼ', 'ぽ', 'も', 'よ', 'ょ', 'ろ', 'を', 'オ', 'ォ', 'コ', 'ゴ', 'ソ', 'ゾ', 'ト', 'ド', 'ノ', 'ホ', 'ボ', 'ポ', 'モ', 'ヨ', 'ョ', 'ロ', 'ヲ']
}

/// The long-vowel mark ー takes the vowel of the kana before it, in either
/// script and in plain, voiced, semi-voiced and small forms: あ after the
/// あ column, い after the い column, え after the え column, and う after
/// the う and お columns (the お column lengthens with う).
pub proof fn law_long_vowel_mark_takes_the_vowel(k: int)
    ensures
        0 <= k < long_a_kana().len() ==> katakana_to_hiragana_spec(seq![long_a_kana()[k], 'ー'])[1] == 'あ',
        0 <= k < long_i_kana().len() ==> katakana_to_hiragana_spec(seq![long_i_kana()[k], 'ー'])[1] == 'い',
        0 <= k < long_e_kana().len() ==> katakana_to_hiragana_spec(seq![long_e_kana()[k], 'ー'])[1] == 'え',
        0 <= k < long_u_kana().len() ==> katakana_to_hiragana_spec(seq![long_u_kana()[k], 'ー'])[1] == 'う',
{
    assert(!is_katakana('ー'));
}


/// Two alignments have the same shape: as many segments, the same ruby on
/// each, and base texts of the same lengths.
pub open spec fn same_shape(a: Seq<SegmentView>, b: Seq<SegmentView>) -> bool {
    a.len() == b.len() && forall|k: int|
        0 <= k < a.len() ==> (#[trigger] a[k]).1 == b[k].1 && a[k].0.len() == b[k].0.len()
}

proof fn lemma_concat_same_shape(a: Seq<SegmentView>, a2: Seq<SegmentView>, b: Seq<SegmentView>, b2: Seq<SegmentView>)
    requires
        same_shape(a, a2),
        same_shape(b, b2),
    ensures
        same_shape(a + b, a2 + b2),
{
    assert forall|k: int| 0 <= k < (a + b).len() implies (#[trigger] (a + b)[k]).1 == (a2 + b2)[k].1
        && (a + b)[k].0.len() == (a2 + b2)[k].0.len() by {
        if k < a.len() {
            assert((a + b)[k] == a[k] && (a2 + b2)[k] == a2[k]);
        } else {
            assert((a + b)[k] == b[k - a.len()] && (a2 + b2)[k] == b2[k - a.len()]);
        }
    }
}

proof fn lemma_glue_same_shape(a: Seq<SegmentView>, a2: Seq<SegmentView>, b: Seq<SegmentView>, b2: Seq<SegmentView>)
    requires
        same_shape(a, a2),
        same_shape(b, b2),
    ensures
        same_shape(glue(a, b), glue(a2, b2)),
{
    if a.len() > 0 && b.len() > 0 {
        assert(a[a.len() - 1].1 == a2[a.len() - 1].1);
        assert(b[0].1 == b2[0].1);
    }
    if a.len() > 0 && b.len() > 0 && a.last().1 is None && b[0].1 is None {
        let g = glue(a, b);
        let g2 = glue(a2, b2);
        let m = a.len() - 1;
        assert(a.last().0.len() == a2.last().0.len());
        assert(b[0].0.len() == b2[0].0.len());
        assert(g.len() == g2.len());
        assert forall|k: int| 0 <= k < g.len() implies (#[trigger] g[k]).1 == g2[k].1 && g[k].0.len()
            == g2[k].0.len() by {
            if k < m {
                assert(g[k] == a[k] && g2[k] == a2[k]);
            } else if k == m {
                assert(g[k] == (a.last().0 + b[0].0, None::<Seq<char>>));
                assert(g2[k] == (a2.last().0 + b2[0].0, None::<Seq<char>>));
            } else {
                assert(g[k] == b[k - m] && g2[k] == b2[k - m]);
            }
        }
    } else {
        lemma_concat_same_shape(a, a2, b, b2);
    }
}

proof fn lemma_run_end_same(t: Seq<char>, t2: Seq<char>, i: int)
    requires
        t.len() == t2.len(),
        forall|k: int| 0 <= k < t.len() ==> kanji(#[trigger] t[k]) == kanji(t2[k]),
    ensures
        kanji_run_end(t, i) == kanji_run_end(t2, i),
    decreases t.len() - i,
{
    if 0 <= i < t.len() && kanji(t[i]) {
        lemma_run_end_same(t, t2, i + 1);
    }
}

/// The alignment sees a term only through each character's kanji class and
/// hiragana form: terms that agree on those align alike, up to base texts.
proof fn lemma_align_same_shape(t: Seq<char>, t2: Seq<char>, r: Seq<char>, n: Seq<char>, ti: int, ri: int)
    requires
        t.len() == t2.len(),
        forall|k: int| 0 <= k < t.len() ==> kanji(#[trigger] t[k]) == kanji(t2[k]),
        forall|k: int| 0 <= k < t.len() ==> hiragana_of(#[trigger] t[k]) == hiragana_of(t2[k]),
    ensures
        align_from(t, r, n, ti, ri) is Some <==> align_from(t2, r, n, ti, ri) is Some,
        align_from(t, r, n, ti, ri) is Some ==> same_shape(
            align_from(t, r, n, ti, ri).unwrap(),
            align_from(t2, r, n, ti, ri).unwrap(),
        ),
    decreases t.len() - ti,
{
    if ti < 0 || ti >= t.len() {
        assert(same_shape(Seq::<SegmentView>::empty(), Seq::<SegmentView>::empty()));
    } else if !kanji(t[ti]) {
        assert(!kanji(t2[ti]));
        assert(hiragana_of(t[ti]) == hiragana_of(t2[ti]));
        lemma_align_same_shape(t, t2, r, n, ti + 1, ri + 1);
        if align_from(t, r, n, ti + 1, ri + 1) is Some && 0 <= ri < n.len() && hiragana_of(t[ti]) == n[ri] {
            let one = seq![(seq![t[ti]], None::<Seq<char>>)];
            let one2 = seq![(seq![t2[ti]], None::<Seq<char>>)];
            assert(same_shape(one, one2)) by {
                assert(one[0].0.len() == 1 && one2[0].0.len() == 1);
            }
            lemma_glue_same_shape(
                one,
                one2,
                align_from(t, r, n, ti + 1, ri + 1).unwrap(),
                align_from(t2, r, n, ti + 1, ri + 1).unwrap(),
            );
        }
    } else {
        assert(kanji(t2[ti]));
        lemma_run_end_same(t, t2, ti);
        let tj = kanji_run_end(t, ti);
        if tj < t.len() {
            if 0 <= tj {
                assert(hiragana_of(t[tj]) == hiragana_of(t2[tj]));
            }
            match find_from(n, ri, hiragana_of(t[tj])) {
                Some(idx) => {
                    if idx > ri && tj > ti {
                        lemma_align_same_shape(t, t2, r, n, tj, idx);
                        if align_from(t, r, n, tj, idx) is Some {
                            let head = seq![(t.subrange(ti, tj), Some(r.subrange(ri, idx)))];
                            let head2 = seq![(t2.subrange(ti, tj), Some(r.subrange(ri, idx)))];
                            assert(same_shape(head, head2));
                            lemma_concat_same_shape(
                                head,
                                head2,
                                align_from(t, r, n, tj, idx).unwrap(),
                                align_from(t2, r, n, tj, idx).unwrap(),
                            );
                        }
                    }
                },
                None => {},
            }
        } else if 0 <= ri < r.len() {
            let one = seq![(t.subrange(ti, t.len() as int), Some(r.subrange(ri, r.len() as int)))];
            let one2 = seq![(t2.subrange(ti, t2.len() as int), Some(r.subrange(ri, r.len() as int)))];
            assert(same_shape(one, one2));
        }
    }
}

/// Furigana alignment does not depend on the script of the term's kana:
/// writing one katakana character of the term as its hiragana counterpart
/// (the code point 0x60 lower) aligns exactly when the original term does,
/// with the same segments up to that base text: as many, with the same ruby
/// and base texts of the same lengths. (The one-segment answer for a term
/// equal to its reading is set aside on both sides.)
pub proof fn law_alignment_ignores_kana_script(term: Seq<char>, reading: Seq<char>, i: int)
    requires
        0 <= i < term.len(),
        0x30A1 <= term[i] as u32 <= 0x30F6,
        term != reading,
        term.update(i, ((term[i] as u32 - 0x60) as u32) as char) != reading,
    ensures
        ({
            let t2 = term.update(i, ((term[i] as u32 - 0x60) as u32) as char);
            &&& (align_spec(term, reading) is Some <==> align_spec(t2, reading) is Some)
            &&& (align_spec(term, reading) is Some ==> same_shape(
                align_spec(term, reading).unwrap(),
                align_spec(t2, reading).unwrap(),
            ))
        }),
{
    let c = term[i];
    let x: u32 = (c as u32 - 0x60) as u32;
    let c2 = x as char;
    let t2 = term.update(i, c2);
    assert((x as char) as u32 == x);
    assert(!kanji(c) && !kanji(c2));
    assert(hiragana_of(c) == c2);
    assert(seq![c2][0] == c2);
    assert(hiragana_of(c2) == c2);
    assert forall|k: int| 0 <= k < term.len() implies kanji(#[trigger] term[k]) == kanji(t2[k]) by {
        if k != i {
            assert(t2[k] == term[k]);
        }
    }
    assert forall|k: int| 0 <= k < term.len() implies hiragana_of(#[trigger] term[k]) == hiragana_of(t2[k]) by {
        if k != i {
            assert(t2[k] == term[k]);
        }
    }
    lemma_align_same_shape(term, t2, reading, katakana_to_hiragana_spec(reading), 0, 0);
}

/// Furigana alignment covers the term: whenever a reading aligns, the
/// segments' base texts spell the term, and ruby stands only over non-empty
/// kanji runs, with non-empty ruby text.
pub proof fn law_alignment_covers_term(term: Seq<char>, reading: Seq<char>)
    requires
        align_spec(term, reading) is Some,
    ensures
        joined_bases(align_spec(term, reading).unwrap()) == term,
        ruby_over_kanji(align_spec(term, reading).unwrap()),
{
    if term == reading {
        lemma_one_segment((term, None::<Seq<char>>));
    } else {
        let n = katakana_to_hiragana_spec(reading);
        lemma_align_from_covers(term, reading, n, 0, 0);
        assert(term.skip(0) =~= term);
    }
}

} // verus!
