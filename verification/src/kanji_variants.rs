//! Kanji variant table: the vendored Unihan
//! `kSemanticVariant`/`kZVariant` pairs plus the JMdict old-orthography half,
//! in the `variant<TAB>canonical` format of `assets/variants/kanji_variants.txt`.
//!
//! **Direction:** `variant -> canonical`, where the canonical side is the one
//! the recogniser's dictionary carries. The table answers in both directions;
//! until a table is loaded every lookup is the identity function.
use vstd::prelude::*;
use crate::kana_rules::{
    keys_distinct, lemma_pair_line_row, lemma_pairs_text_lines, orthography_row, pair_lines, pairs_text,
    single_field, text_lines, writable_pair,
};
use crate::kana_tables::{lemma_pair_lookup_some, lookup_pair, pair_lookup};
use crate::text::{chars_of, lemma_deep_view_chars, split_on, trim_end, trim_start};

verus! {

/// A token that is exactly one character of the Basic Multilingual Plane, or
/// nothing.
pub fn single_bmp(token: &str) -> (r: Option<char>)
    ensures
        r == single_field(token@),
{
    let t = chars_of(token);
    if t.len() == 1 && t[0] as u32 <= 0xFFFF {
        Some(t[0])
    } else {
        None
    }
}

/// Every well-formed pair of a run of lines, in order (duplicates kept).
pub open spec fn variant_pairs(lines: Seq<Seq<char>>) -> Seq<(char, char)>
    decreases lines.len(),
{
    if lines.len() == 0 {
        Seq::empty()
    } else {
        let done = variant_pairs(lines.drop_last());
        match orthography_row(lines.last()) {
            Some(p) => done.push(p),
            None => done,
        }
    }
}

/// The first pair for each variant, in order of first appearance.
pub open spec fn first_pairs(pairs: Seq<(char, char)>) -> Seq<(char, char)>
    decreases pairs.len(),
{
    if pairs.len() == 0 {
        Seq::empty()
    } else {
        let done = first_pairs(pairs.drop_last());
        if pair_lookup(done, pairs.last().0) is None {
            done.push(pairs.last())
        } else {
            done
        }
    }
}

/// `s` is in strictly increasing order (so it holds no repeats).
pub open spec fn strictly_sorted(s: Seq<char>) -> bool {
    forall|a: int, b: int| 0 <= a < b < s.len() ==> s[a] < s[b]
}

/// The canonical candidates the pairs give for `ch`.
pub open spec fn canonicals_in(pairs: Seq<(char, char)>, ch: char) -> Set<char> {
    Set::new(|c: char| exists|i: int| 0 <= i < pairs.len() && pairs[i] == (ch, c))
}

/// The variants the pairs fold onto `ch`.
pub open spec fn variants_in(pairs: Seq<(char, char)>, ch: char) -> Set<char> {
    Set::new(|v: char| exists|i: int| 0 <= i < pairs.len() && pairs[i] == (v, ch))
}

/// The parsed kanji variant table.
pub struct KanjiVariantTable {
    pairs: Vec<(char, char)>,
    canonical_by_variant: Vec<(char, char)>,
}

/// The table as plain values: every pair in file order, and the first pair of
/// each variant.
pub struct VariantTableView {
    pub pairs: Seq<(char, char)>,
    pub first: Seq<(char, char)>,
}

impl View for KanjiVariantTable {
    type V = VariantTableView;

    closed spec fn view(&self) -> VariantTableView {
        VariantTableView { pairs: self.pairs@, first: self.canonical_by_variant@ }
    }
}

/// Insert `c` into the strictly sorted `v`, unless it is already there.
fn insert_sorted(v: &mut Vec<char>, c: char)
    requires
        strictly_sorted(old(v)@),
    ensures
        strictly_sorted(final(v)@),
        final(v)@.to_set() == old(v)@.to_set().insert(c),
{
    let mut k: usize = 0;
    while k < v.len() && v[k] < c
        invariant
            k <= v.len(),
            forall|j: int| 0 <= j < k ==> v@[j] < c,
        decreases v.len() - k,
    {
        k += 1;
    }
    if k < v.len() && v[k] == c {
        proof {
            assert(v@.to_set() =~= v@.to_set().insert(c)) by {
                assert(v@.contains(c));
            }
        }
        return;
    }
    let ghost before = v@;
    v.insert(k, c);
    proof {
        assert(v@ =~= before.take(k as int).push(c) + before.skip(k as int));
        assert forall|a: int, b: int| 0 <= a < b < v@.len() implies v@[a] < v@[b] by {
            if b < k {
                assert(v@[a] == before[a] && v@[b] == before[b]);
            } else if b == k {
                assert(v@[a] == before[a]);
            } else if a == k {
                assert(v@[b] == before[b - 1]);
                assert(before[k as int] >= c);
                if b - 1 > k {
                    assert(before[k as int] < before[b - 1]);
                }
            } else if a < k {
                assert(v@[a] == before[a] && v@[b] == before[b - 1]);
            } else {
                assert(v@[a] == before[a - 1] && v@[b] == before[b - 1]);
            }
        }
        assert forall|x: char| v@.to_set().contains(x) <==> before.to_set().insert(c).contains(x) by {
            if v@.contains(x) {
                let j = choose|j: int| 0 <= j < v@.len() && v@[j] == x;
                if j < k {
                    assert(before[j] == x);
                } else if j > k {
                    assert(before[j - 1] == x);
                }
            }
            if before.contains(x) {
                let j = choose|j: int| 0 <= j < before.len() && before[j] == x;
                if j < k {
                    assert(v@[j] == x);
                } else {
                    assert(v@[j + 1] == x);
                }
            }
            if x == c {
                assert(v@[k as int] == c);
            }
        }
        assert(v@.to_set() =~= before.to_set().insert(c));
    }
}

/// The sorted, repeat-free list of the second sides of the pairs whose first
/// side is `key` (`forward`), or of the first sides of the pairs whose second
/// side is `key` (not `forward`).
fn collect_sorted(pairs: &Vec<(char, char)>, key: char, forward: bool) -> (r: Vec<char>)
    ensures
        strictly_sorted(r@),
        forward ==> r@.to_set() == canonicals_in(pairs@, key),
        !forward ==> r@.to_set() == variants_in(pairs@, key),
{
    let mut out: Vec<char> = Vec::new();
    let mut i: usize = 0;
    proof {
        assert(out@.to_set() =~= canonicals_in(pairs@.take(0), key));
        assert(out@.to_set() =~= variants_in(pairs@.take(0), key));
    }
    while i < pairs.len()
        invariant
            i <= pairs.len(),
            strictly_sorted(out@),
            forward ==> out@.to_set() == canonicals_in(pairs@.take(i as int), key),
            !forward ==> out@.to_set() == variants_in(pairs@.take(i as int), key),
        decreases pairs.len() - i,
    {
        let (v, c) = pairs[i];
        let ghost before = out@.to_set();
        let ghost t = pairs@.take(i as int);
        let ghost u = pairs@.take(i + 1);
        proof {
            assert forall|j: int| 0 <= j < i implies #[trigger] u[j] == t[j] by {}
            assert(u[i as int] == (v, c));
        }
        if forward && v == key {
            insert_sorted(&mut out, c);
            proof {
                assert(canonicals_in(u, key) =~= canonicals_in(t, key).insert(c));
            }
        } else if !forward && c == key {
            insert_sorted(&mut out, v);
            proof {
                assert(variants_in(u, key) =~= variants_in(t, key).insert(v));
            }
        } else {
            proof {
                if forward {
                    assert forall|x: char| canonicals_in(u, key).contains(x) implies canonicals_in(
                        t,
                        key,
                    ).contains(x) by {
                        let j = choose|j: int| 0 <= j < u.len() && u[j] == (key, x);
                        assert(j != i);
                        assert(t[j] == u[j]);
                    }
                    assert forall|x: char| canonicals_in(t, key).contains(x) implies canonicals_in(
                        u,
                        key,
                    ).contains(x) by {
                        let j = choose|j: int| 0 <= j < t.len() && t[j] == (key, x);
                        assert(u[j] == t[j]);
                    }
                    assert(canonicals_in(u, key) =~= canonicals_in(t, key));
                } else {
                    assert forall|x: char| variants_in(u, key).contains(x) implies variants_in(
                        t,
                        key,
                    ).contains(x) by {
                        let j = choose|j: int| 0 <= j < u.len() && u[j] == (x, key);
                        assert(j != i);
                        assert(t[j] == u[j]);
                    }
                    assert forall|x: char| variants_in(t, key).contains(x) implies variants_in(
                        u,
                        key,
                    ).contains(x) by {
                        let j = choose|j: int| 0 <= j < t.len() && t[j] == (x, key);
                        assert(u[j] == t[j]);
                    }
                    assert(variants_in(u, key) =~= variants_in(t, key));
                }
            }
        }
        i += 1;
    }
    proof {
        assert(pairs@.take(pairs.len() as int) =~= pairs@);
    }
    out
}

impl KanjiVariantTable {
    #[verifier::type_invariant]
    closed spec fn wf(self) -> bool {
        &&& keys_distinct(self.canonical_by_variant@)
        &&& self.canonical_by_variant@ == first_pairs(self.pairs@)
    }

    /// An empty table: every lookup is the identity function.
    pub fn empty() -> (r: Self)
        ensures
            r@.pairs.len() == 0,
            r@.first.len() == 0,
    {
        let t = KanjiVariantTable { pairs: Vec::new(), canonical_by_variant: Vec::new() };
        proof {
            assert(t.canonical_by_variant@ =~= first_pairs(t.pairs@));
        }
        t
    }

    /// Parse the committed asset: one `variant<TAB>canonical` pair per line,
    /// `#` comments and blank lines ignored, malformed lines skipped (a side
    /// that is not one BMP character, a pair whose sides are equal). Every pair
    /// is kept for [`canonicals_of`](Self::canonicals_of) and
    /// [`obsolete_forms_of`](Self::obsolete_forms_of), while
    /// [`canonical`](Self::canonical) answers with the first line for that
    /// variant.
    pub fn parse(text: &str) -> (r: Self)
        ensures
            r@.pairs == variant_pairs(text_lines(text@)),
            r@.first == first_pairs(r@.pairs),
    {
        let chars = chars_of(text);
        let lines = split_on(&chars, '\n', '\n');
        let ghost ls = lines.deep_view();
        let mut pairs: Vec<(char, char)> = Vec::new();
        let mut first: Vec<(char, char)> = Vec::new();
        let mut i: usize = 0;
        proof {
            assert(ls.take(0) =~= Seq::<Seq<char>>::empty());
        }
        while i < lines.len()
            invariant
                i <= lines.len(),
                ls == lines.deep_view(),
                pairs@ == variant_pairs(ls.take(i as int)),
                first@ == first_pairs(pairs@),
                keys_distinct(first@),
            decreases lines.len() - i,
        {
            proof {
                lemma_deep_view_chars(lines@[i as int]);
                let t = ls.take(i + 1);
                assert(t.drop_last() =~= ls.take(i as int));
                assert(t.last() == lines@[i as int]@);
            }
            match row_of(&lines[i]) {
                Some(p) => {
                    let ghost before = pairs@;
                    pairs.push(p);
                    proof {
                        assert(pairs@.drop_last() =~= before);
                    }
                    if lookup_pair(first.as_slice(), p.0).is_none() {
                        proof {
                            lemma_pair_lookup_some(first@, p.0);
                            assert forall|a: int, b: int| 0 <= a < b < first@.push(p).len() implies
                                first@.push(p)[a].0 != first@.push(p)[b].0 by {
                                if b == first@.len() {
                                    assert(first@.push(p)[a] == first@[a]);
                                } else {
                                    assert(first@.push(p)[a] == first@[a]);
                                    assert(first@.push(p)[b] == first@[b]);
                                }
                            }
                        }
                        first.push(p);
                    }
                },
                None => {},
            }
            i += 1;
        }
        proof {
            assert(ls.take(lines.len() as int) =~= ls);
        }
        KanjiVariantTable { pairs, canonical_by_variant: first }
    }

    /// A loaded asset's table: `None` when the text parses to nothing (callers
    /// then offer no variant forms).
    pub fn from_asset_text(text: &str) -> (r: Option<Self>)
        ensures
            match r {
                Some(t) => t@.pairs == variant_pairs(text_lines(text@)) && t@.first == first_pairs(
                    t@.pairs,
                ) && t@.first.len() > 0,
                None => first_pairs(variant_pairs(text_lines(text@))).len() == 0,
            },
    {
        let table = Self::parse(text);
        if table.entry_count() == 0 {
            None
        } else {
            Some(table)
        }
    }

    /// Number of distinct variants installed; 0 when nothing is loaded.
    pub fn entry_count(&self) -> (r: usize)
        ensures
            r == self@.first.len(),
    {
        self.canonical_by_variant.len()
    }

    /// The canonical form of `ch` (its first line), or `ch` itself when the
    /// table has no entry for it. Never fails, including on an empty table.
    pub fn canonical(&self, ch: char) -> (r: char)
        ensures
            r == match pair_lookup(self@.first, ch) {
                Some(c) => c,
                None => ch,
            },
    {
        match lookup_pair(self.canonical_by_variant.as_slice(), ch) {
            Some(c) => c,
            None => ch,
        }
    }

    /// Every canonical candidate the table lists for `ch`, sorted; empty when
    /// there are none.
    pub fn canonicals_of(&self, ch: char) -> (r: Vec<char>)
        ensures
            strictly_sorted(r@),
            r@.to_set() == canonicals_in(self@.pairs, ch),
    {
        collect_sorted(&self.pairs, ch, true)
    }

    /// The variant forms that fold to `ch`, sorted; empty when there are none.
    pub fn obsolete_forms_of(&self, ch: char) -> (r: Vec<char>)
        ensures
            strictly_sorted(r@),
            r@.to_set() == variants_in(self@.pairs, ch),
    {
        collect_sorted(&self.pairs, ch, false)
    }
}

/// The pair a line carries, parsed as the orthography rows are.
fn row_of(line: &Vec<char>) -> (r: Option<(char, char)>)
    ensures
        r == orthography_row(line@),
{
    crate::kana_rules::orthography_row_of(line)
}


/// The pairs of the lines written for `ps`, each line carrying its pair.
proof fn lemma_variant_pairs_of_lines(ps: Seq<(char, char)>)
    requires
        forall|i: int| 0 <= i < ps.len() ==> writable_pair(#[trigger] ps[i]),
    ensures
        variant_pairs(pair_lines(ps)) == ps,
    decreases ps.len(),
{
    if ps.len() > 0 {
        let q = ps.drop_last();
        assert forall|i: int| 0 <= i < q.len() implies writable_pair(#[trigger] q[i]) by {
            assert(q[i] == ps[i]);
        }
        lemma_variant_pairs_of_lines(q);
        assert(pair_lines(ps).drop_last() =~= pair_lines(q));
        assert(writable_pair(ps[ps.len() - 1]));
        lemma_pair_line_row(ps.last());
        assert(q.push(ps.last()) =~= ps);
    }
}

/// With no variant twice, every pair is the first for its variant.
proof fn lemma_first_pairs_distinct(ps: Seq<(char, char)>)
    requires
        keys_distinct(ps),
    ensures
        first_pairs(ps) == ps,
    decreases ps.len(),
{
    if ps.len() > 0 {
        let q = ps.drop_last();
        assert(keys_distinct(q)) by {
            assert forall|a: int, b: int| 0 <= a < b < q.len() implies q[a].0 != q[b].0 by {
                assert(q[a] == ps[a] && q[b] == ps[b]);
            }
        }
        lemma_first_pairs_distinct(q);
        lemma_pair_lookup_some(q, ps.last().0);
        if pair_lookup(q, ps.last().0) is Some {
            let i = choose|i: int| 0 <= i < q.len() && q[i].0 == ps.last().0;
            assert(ps[i].0 != ps[ps.len() - 1].0);
        }
        assert(q.push(ps.last()) =~= ps);
    }
}

/// Reading back what was written: the text format of a list of pairs the
/// format can carry parses to exactly those pairs, in order, and when no
/// variant repeats every pair is also its variant's first answer.
pub proof fn law_variant_text_roundtrip(ps: Seq<(char, char)>)
    requires
        forall|i: int| 0 <= i < ps.len() ==> writable_pair(#[trigger] ps[i]),
    ensures
        variant_pairs(text_lines(pairs_text(ps))) == ps,
        keys_distinct(ps) ==> first_pairs(variant_pairs(text_lines(pairs_text(ps)))) == ps,
{
    lemma_pairs_text_lines(ps);
    let lines = pair_lines(ps).push(Seq::<char>::empty());
    assert(lines.drop_last() =~= pair_lines(ps));
    assert(trim_start(Seq::<char>::empty()) == Seq::<char>::empty());
    assert(trim_end(Seq::<char>::empty()) == Seq::<char>::empty());
    assert(orthography_row(lines.last()) is None);
    lemma_variant_pairs_of_lines(ps);
    if keys_distinct(ps) {
        lemma_first_pairs_distinct(ps);
    }
}


/// The table answers in both directions alike: `v` is an obsolete form of
/// `c` exactly when `c` is a canonical candidate of `v`.
pub proof fn law_variant_directions_agree(pairs: Seq<(char, char)>, v: char, c: char)
    ensures
        variants_in(pairs, c).contains(v) <==> canonicals_in(pairs, v).contains(c),
{
}

/// An empty table knows no variant: every character is its own canonical
/// and has neither candidates nor obsolete forms.
pub proof fn law_variant_empty_table(ch: char)
    ensures
        pair_lookup(first_pairs(Seq::<(char, char)>::empty()), ch) is None,
        canonicals_in(Seq::<(char, char)>::empty(), ch) == Set::<char>::empty(),
        variants_in(Seq::<(char, char)>::empty(), ch) == Set::<char>::empty(),
{
    assert(canonicals_in(Seq::<(char, char)>::empty(), ch) =~= Set::<char>::empty());
    assert(variants_in(Seq::<(char, char)>::empty(), ch) =~= Set::<char>::empty());
}

/// The characters the pairs give candidates for.
pub open spec fn with_candidates(pairs: Seq<(char, char)>) -> Set<char> {
    Set::new(|x: char| exists|i: int| 0 <= i < pairs.len() && pairs[i].0 == x)
}

/// No pair read from text maps a character to itself.
proof fn lemma_variant_pairs_differ(lines: Seq<Seq<char>>)
    ensures
        forall|i: int| 0 <= i < variant_pairs(lines).len() ==> (#[trigger] variant_pairs(lines)[i]).0
            != variant_pairs(lines)[i].1,
    decreases lines.len(),
{
    if lines.len() > 0 {
        lemma_variant_pairs_differ(lines.drop_last());
        let done = variant_pairs(lines.drop_last());
        assert forall|i: int| 0 <= i < variant_pairs(lines).len() implies (#[trigger] variant_pairs(
            lines,
        )[i]).0 != variant_pairs(lines)[i].1 by {
            if i < done.len() {
                assert(variant_pairs(lines)[i] == done[i]);
            }
        }
    }
}

/// The first pairs have distinct variants, each is one of the pairs, and
/// they name exactly the variants the pairs name.
proof fn lemma_first_pairs_shape(pairs: Seq<(char, char)>)
    ensures
        keys_distinct(first_pairs(pairs)),
        forall|j: int|
            0 <= j < first_pairs(pairs).len() ==> exists|i: int| 0 <= i < pairs.len() && pairs[i] == #[trigger] first_pairs(pairs)[j],
        forall|x: char|
            #[trigger] with_candidates(pairs).contains(x) <==> (exists|j: int|
                0 <= j < first_pairs(pairs).len() && #[trigger] first_pairs(pairs)[j].0 == x),
    decreases pairs.len(),
{
    if pairs.len() > 0 {
        let q = pairs.drop_last();
        let done = first_pairs(q);
        let p = pairs.last();
        lemma_first_pairs_shape(q);
        lemma_pair_lookup_some(done, p.0);
        let fp = first_pairs(pairs);
        assert forall|j: int| 0 <= j < fp.len() implies exists|i: int| 0 <= i < pairs.len() && pairs[i] == #[trigger] fp[j] by {
            if j < done.len() {
                assert(fp[j] == done[j]);
                let i = choose|i: int| 0 <= i < q.len() && q[i] == done[j];
                assert(pairs[i] == q[i]);
            } else {
                assert(pairs[pairs.len() - 1] == fp[j]);
            }
        }
        assert forall|x: char|
            #[trigger] with_candidates(pairs).contains(x) <==> (exists|j: int|
                0 <= j < fp.len() && #[trigger] fp[j].0 == x) by {
            if with_candidates(pairs).contains(x) {
                let i = choose|i: int| 0 <= i < pairs.len() && pairs[i].0 == x;
                if i < q.len() {
                    assert(q[i].0 == x);
                    assert(with_candidates(q).contains(x));
                    let j = choose|j: int| 0 <= j < done.len() && #[trigger] done[j].0 == x;
                    assert(fp[j] == done[j]);
                } else if pair_lookup(done, p.0) is None {
                    assert(fp[done.len() as int].0 == x);
                } else {
                    let j = choose|j: int| 0 <= j < done.len() && done[j].0 == p.0;
                    assert(fp[j] == done[j]);
                }
            }
            if exists|j: int| 0 <= j < fp.len() && #[trigger] fp[j].0 == x {
                let j = choose|j: int| 0 <= j < fp.len() && #[trigger] fp[j].0 == x;
                let i = choose|i: int| 0 <= i < pairs.len() && pairs[i] == fp[j];
                assert(pairs[i].0 == x);
                assert(with_candidates(pairs).contains(x));
            }
        }
        if pair_lookup(done, p.0) is None {
            assert forall|a: int, b: int| 0 <= a < b < fp.len() implies fp[a].0 != fp[b].0 by {
                assert(fp[a] == done[a]);
                if b < done.len() {
                    assert(fp[b] == done[b]);
                }
            }
        }
    }
}

/// What a parsed variant table answers: no pair maps a character to
/// itself, so neither a candidate list nor an obsolete-form list holds its
/// own argument; a character has a canonical other than itself exactly when
/// it has candidates, and that canonical is one of them; and the number of
/// installed variants is the number of characters with candidates.
pub proof fn law_variant_table_shape(text: Seq<char>, v: char)
    ensures
        ({
            let pairs = variant_pairs(text_lines(text));
            &&& !canonicals_in(pairs, v).contains(v)
            &&& !variants_in(pairs, v).contains(v)
            &&& (pair_lookup(first_pairs(pairs), v) is Some <==> exists|c: char|
                canonicals_in(pairs, v).contains(c))
            &&& (pair_lookup(first_pairs(pairs), v) matches Some(c) ==> c != v && canonicals_in(
                pairs,
                v,
            ).contains(c))
            &&& with_candidates(pairs).finite()
            &&& first_pairs(pairs).len() == with_candidates(pairs).len()
        }),
{
    let pairs = variant_pairs(text_lines(text));
    let fp = first_pairs(pairs);
    lemma_variant_pairs_differ(text_lines(text));
    lemma_first_pairs_shape(pairs);
    lemma_pair_lookup_some(fp, v);
    if canonicals_in(pairs, v).contains(v) {
        let i = choose|i: int| 0 <= i < pairs.len() && pairs[i] == (v, v);
        assert(pairs[i].0 != pairs[i].1);
    }
    if variants_in(pairs, v).contains(v) {
        let i = choose|i: int| 0 <= i < pairs.len() && pairs[i] == (v, v);
        assert(pairs[i].0 != pairs[i].1);
    }
    if pair_lookup(fp, v) is Some {
        let c = pair_lookup(fp, v)->0;
        let j = choose|j: int| 0 <= j < fp.len() && fp[j].0 == v && fp[j].1 == c;
        let i = choose|i: int| 0 <= i < pairs.len() && pairs[i] == fp[j];
        assert(pairs[i].0 != pairs[i].1);
        assert(canonicals_in(pairs, v).contains(c));
    }
    if exists|c: char| canonicals_in(pairs, v).contains(c) {
        let c = choose|c: char| canonicals_in(pairs, v).contains(c);
        let i = choose|i: int| 0 <= i < pairs.len() && pairs[i] == (v, c);
        assert(pairs[i].0 == v);
        assert(with_candidates(pairs).contains(v));
        let j = choose|j: int| 0 <= j < fp.len() && #[trigger] fp[j].0 == v;
    }
    let ks = fp.map_values(|p: (char, char)| p.0);
    assert(ks.no_duplicates()) by {
        assert forall|a: int, b: int| 0 <= a < ks.len() && 0 <= b < ks.len() && a != b implies ks[a] != ks[b] by {
            if a < b {
                assert(fp[a].0 != fp[b].0);
            } else {
                assert(fp[b].0 != fp[a].0);
            }
        }
    }
    assert(ks.to_set() =~= with_candidates(pairs)) by {
        assert forall|x: char| ks.to_set().contains(x) <==> with_candidates(pairs).contains(x) by {
            if ks.to_set().contains(x) {
                let j = choose|j: int| 0 <= j < ks.len() && ks[j] == x;
                assert(fp[j].0 == x);
                assert(with_candidates(pairs).contains(x));
            }
            if with_candidates(pairs).contains(x) {
                let j = choose|j: int| 0 <= j < fp.len() && #[trigger] fp[j].0 == x;
                assert(ks[j] == x);
                assert(ks.contains(x));
            }
        }
    }
    ks.unique_seq_to_set();
}

} // verus!
