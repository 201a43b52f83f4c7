//! Japanese deinflection engine: candidate base forms of a conjugated word,
//! found by repeatedly undoing conjugation suffixes.
use vstd::prelude::*;
use crate::text::{chars_equal, chars_of, concat_chars, copy_range, string_of, trim, trim_chars};

verus! {

/// A single deinflection rule: a word ending in `kana_in` may be the form of
/// a word ending in `kana_out` instead; `rules_out` are the grammatical types
/// of that base form and `reason` the rule's group label (e.g. "past").
#[derive(Debug, Clone, PartialEq)]
pub struct DeinflectionRule {
    pub kana_in: String,
    pub kana_out: String,
    pub rules_out: Vec<String>,
    pub reason: String,
}

/// A rule as plain values: `(kana_in, kana_out, rules_out, reason)`.
pub type RuleView = (Seq<char>, Seq<char>, Seq<Seq<char>>, Seq<char>);

impl View for DeinflectionRule {
    type V = RuleView;

    open spec fn view(&self) -> RuleView {
        (self.kana_in@, self.kana_out@, self.rules_out.deep_view(), self.reason@)
    }
}

/// Result of a deinflection: a candidate term with the chain of reasons that
/// led to it and its grammatical types.
#[derive(Debug, Clone, PartialEq)]
pub struct DeinflectionResult {
    pub term: String,
    pub reasons: Vec<String>,
    pub rule_types: Vec<String>,
}

/// A result as plain values: `(term, reasons, rule_types)`.
pub type ResultView = (Seq<char>, Seq<Seq<char>>, Seq<Seq<char>>);

impl View for DeinflectionResult {
    type V = ResultView;

    open spec fn view(&self) -> ResultView {
        (self.term@, self.reasons.deep_view(), self.rule_types.deep_view())
    }
}

/// A term too short to deinflect: shorter than two bytes in UTF-8, that is
/// empty or a single ASCII character.
pub open spec fn too_short(t: Seq<char>) -> bool {
    t.len() == 0 || (t.len() == 1 && (t[0] as u32) < 0x80)
}

pub open spec fn ends_with(t: Seq<char>, k: Seq<char>) -> bool {
    k.len() <= t.len() && t.skip(t.len() - k.len()) == k
}

/// `t` with the rule's `kana_in` suffix replaced by its `kana_out`.
pub open spec fn root_of(t: Seq<char>, r: RuleView) -> Seq<char> {
    t.take(t.len() - r.0.len()) + r.1
}

/// Rule `j` applies to `t` and yields a non-empty root.
pub open spec fn applies_to(rules: Seq<RuleView>, t: Seq<char>, j: int) -> bool {
    0 <= j < rules.len() && !too_short(t) && ends_with(t, rules[j].0) && root_of(t, rules[j]).len()
        > 0
}

/// `u` is one rule application away from `t`.
pub open spec fn derives(rules: Seq<RuleView>, t: Seq<char>, u: Seq<char>) -> bool {
    exists|j: int| applies_to(rules, t, j) && u == root_of(t, rules[j])
}

/// The terms reachable from `text` in at most `n` rule applications.
pub open spec fn reach_within(rules: Seq<RuleView>, text: Seq<char>, n: nat) -> Set<Seq<char>>
    decreases n,
{
    if n == 0 {
        set![text]
    } else {
        let prev = reach_within(rules, text, (n - 1) as nat);
        prev.union(Set::new(|u: Seq<char>| exists|w: Seq<char>| prev.contains(w) && derives(rules, w, u)))
    }
}

/// Every term reachable from `text` by rule applications (including `text`).
pub open spec fn reachable(rules: Seq<RuleView>, text: Seq<char>) -> Set<Seq<char>> {
    Set::new(|u: Seq<char>| exists|n: nat| #[trigger] reach_within(rules, text, n).contains(u))
}

/// The reasons a rule adds to a chain: its label, unless empty.
pub open spec fn reasons_after(reasons: Seq<Seq<char>>, r: RuleView) -> Seq<Seq<char>> {
    if r.3.len() > 0 {
        reasons.push(r.3)
    } else {
        reasons
    }
}

/// Derivation `(p, j)` (rule `j` applied to result `p`) comes before
/// derivation `(q, x)`: an earlier result, or the same result and an
/// earlier rule.
pub open spec fn derivation_before(p: int, j: int, q: int, x: int) -> bool {
    p < q || (p == q && j < x)
}

/// `(p, j)` is the first derivation of term `t` among the results: rule `j`
/// applies to result `p` and yields `t`, and no derivation before it yields
/// `t`.
pub open spec fn first_derivation(rules: Seq<RuleView>, res: Seq<ResultView>, t: Seq<char>, p: int, j: int) -> bool {
    &&& 0 <= p < res.len()
    &&& applies_to(rules, res[p].0, j)
    &&& root_of(res[p].0, rules[j]) == t
    &&& forall|q: int, x: int|
        0 <= q < res.len() && derivation_before(q, x, p, j) && applies_to(rules, res[q].0, x) ==> root_of(
            #[trigger] res[q].0,
            #[trigger] rules[x],
        ) != t
}

/// Result `k` comes from its first derivation `(p, j)`, from an earlier
/// result: it carries that result's reasons extended by the rule, and the
/// rule's types.
pub open spec fn derived_first(rules: Seq<RuleView>, res: Seq<ResultView>, k: int, p: int, j: int) -> bool {
    &&& p < k
    &&& first_derivation(rules, res, res[k].0, p, j)
    &&& res[k].1 == reasons_after(res[p].1, rules[j])
    &&& res[k].2 == rules[j].2
}

/// Result `k` comes from its first derivation, from some earlier result.
pub open spec fn comes_first_derived(rules: Seq<RuleView>, res: Seq<ResultView>, k: int) -> bool {
    exists|p: int, j: int| #[trigger] derived_first(rules, res, k, p, j)
}

/// Every result after the first comes from its first derivation.
pub open spec fn all_derived_first(rules: Seq<RuleView>, res: Seq<ResultView>) -> bool {
    forall|k: int| 1 <= k < res.len() ==> #[trigger] comes_first_derived(rules, res, k)
}

/// The results after the first come in the order of their first
/// derivations.
pub open spec fn in_derivation_order(rules: Seq<RuleView>, res: Seq<ResultView>) -> bool {
    forall|k1: int, k2: int, p1: int, j1: int, p2: int, j2: int|
        1 <= k1 < k2 < res.len() && #[trigger] first_derivation(rules, res, res[k1].0, p1, j1)
            && #[trigger] first_derivation(rules, res, res[k2].0, p2, j2) ==> derivation_before(
            p1,
            j1,
            p2,
            j2,
        )
}

/// The first derivation of every result after the first comes before
/// `(i, j)`.
pub open spec fn derivations_before(rules: Seq<RuleView>, res: Seq<ResultView>, i: int, j: int) -> bool {
    forall|k: int, p: int, x: int|
        1 <= k < res.len() && #[trigger] first_derivation(rules, res, res[k].0, p, x) ==> derivation_before(
            p,
            x,
            i,
            j,
        )
}

/// A term has at most one first derivation.
proof fn lemma_first_derivation_unique(
    rules: Seq<RuleView>,
    res: Seq<ResultView>,
    t: Seq<char>,
    p1: int,
    j1: int,
    p2: int,
    j2: int,
)
    requires
        first_derivation(rules, res, t, p1, j1),
        first_derivation(rules, res, t, p2, j2),
    ensures
        p1 == p2 && j1 == j2,
{
    if derivation_before(p1, j1, p2, j2) {
        assert(root_of(res[p1].0, rules[j1]) != t);
    } else if derivation_before(p2, j2, p1, j1) {
        assert(root_of(res[p2].0, rules[j2]) != t);
    }
}

/// Appending results keeps a first derivation from an old result first, and
/// a first derivation from an old result in the longer list was first
/// already.
proof fn lemma_first_derivation_extend(
    rules: Seq<RuleView>,
    old: Seq<ResultView>,
    new: Seq<ResultView>,
    t: Seq<char>,
    p: int,
    j: int,
)
    requires
        old.len() <= new.len(),
        forall|y: int| 0 <= y < old.len() ==> #[trigger] new[y] == old[y],
        0 <= p < old.len(),
    ensures
        first_derivation(rules, old, t, p, j) <==> first_derivation(rules, new, t, p, j),
{
    if first_derivation(rules, old, t, p, j) {
        assert forall|q: int, x: int|
            0 <= q < new.len() && derivation_before(q, x, p, j) && applies_to(rules, new[q].0, x) implies root_of(
            #[trigger] new[q].0,
            #[trigger] rules[x],
        ) != t by {
            assert(new[q] == old[q]);
        }
    }
    if first_derivation(rules, new, t, p, j) {
        assert forall|q: int, x: int|
            0 <= q < old.len() && derivation_before(q, x, p, j) && applies_to(rules, old[q].0, x) implies root_of(
            #[trigger] old[q].0,
            #[trigger] rules[x],
        ) != t by {
            assert(new[q] == old[q]);
        }
    }
}

/// Derivations before `(i, j)` are before every later `(i2, j2)` too.
proof fn lemma_derivations_before_later(rules: Seq<RuleView>, res: Seq<ResultView>, i: int, j: int, i2: int, j2: int)
    requires
        derivations_before(rules, res, i, j),
        i < i2 || (i == i2 && j <= j2),
    ensures
        derivations_before(rules, res, i2, j2),
{
    assert forall|k: int, p: int, x: int|
        1 <= k < res.len() && #[trigger] first_derivation(rules, res, res[k].0, p, x) implies derivation_before(
        p,
        x,
        i2,
        j2,
    ) by {
        assert(derivation_before(p, x, i, j));
    }
}

/// Appending the result of the derivation `(i, j)`, whose term no result
/// holds yet, after every derivation before it has been tried keeps the
/// results derived first and in order.
proof fn lemma_append_first(
    rules: Seq<RuleView>,
    old: Seq<ResultView>,
    new: Seq<ResultView>,
    i: int,
    j: int,
)
    requires
        0 <= i < old.len(),
        applies_to(rules, old[i].0, j),
        new == old.push((root_of(old[i].0, rules[j]), reasons_after(old[i].1, rules[j]), rules[j].2)),
        !term_set(old).contains(root_of(old[i].0, rules[j])),
        forall|q: int, x: int|
            0 <= q < i && applies_to(rules, old[q].0, x) ==> term_set(old).contains(
                root_of(old[q].0, rules[x]),
            ),
        forall|x: int| 0 <= x < j && applies_to(rules, old[i].0, x) ==> term_set(old).contains(
            root_of(old[i].0, rules[x]),
        ),
        all_derived_first(rules, old),
        derivations_before(rules, old, i, j),
        in_derivation_order(rules, old),
    ensures
        all_derived_first(rules, new),
        derivations_before(rules, new, i, j + 1),
        in_derivation_order(rules, new),
{
    let n = old.len() as int;
    let t = root_of(old[i].0, rules[j]);
    assert forall|y: int| 0 <= y < old.len() implies #[trigger] new[y] == old[y] by {}
    // The new result's derivation is its first.
    assert forall|q: int, x: int|
        0 <= q < new.len() && derivation_before(q, x, i, j) && applies_to(rules, new[q].0, x) implies root_of(
        #[trigger] new[q].0,
        #[trigger] rules[x],
    ) != t by {
        assert(new[q] == old[q]);
        if q < i {
            assert(term_set(old).contains(root_of(old[q].0, rules[x])));
        } else {
            assert(term_set(old).contains(root_of(old[i].0, rules[x])));
        }
    }
    assert(first_derivation(rules, new, t, i, j));
    assert(derived_first(rules, new, n, i, j));
    // Old results keep their first derivations.
    assert forall|k: int| 1 <= k < new.len() implies #[trigger] comes_first_derived(rules, new, k) by {
        if k < n {
            assert(comes_first_derived(rules, old, k));
            let (p, x) = choose|p: int, x: int| #[trigger] derived_first(rules, old, k, p, x);
            lemma_first_derivation_extend(rules, old, new, old[k].0, p, x);
            assert(derived_first(rules, new, k, p, x));
        } else {
            assert(derived_first(rules, new, n, i, j));
        }
    }
    // Every first derivation now comes before (i, j + 1).
    assert forall|k: int, p: int, x: int|
        1 <= k < new.len() && #[trigger] first_derivation(rules, new, new[k].0, p, x) implies derivation_before(
        p,
        x,
        i,
        j + 1,
    ) by {
        if k < n {
            assert(comes_first_derived(rules, old, k));
            let (p0, x0) = choose|p0: int, x0: int| #[trigger] derived_first(rules, old, k, p0, x0);
            lemma_first_derivation_extend(rules, old, new, old[k].0, p0, x0);
            lemma_first_derivation_unique(rules, new, new[k].0, p, x, p0, x0);
        } else {
            lemma_first_derivation_unique(rules, new, new[k].0, p, x, i, j);
        }
    }
    // The order holds with the new result last.
    assert forall|k1: int, k2: int, p1: int, j1: int, p2: int, j2: int|
        1 <= k1 < k2 < new.len() && #[trigger] first_derivation(rules, new, new[k1].0, p1, j1)
            && #[trigger] first_derivation(rules, new, new[k2].0, p2, j2) implies derivation_before(
        p1,
        j1,
        p2,
        j2,
    ) by {
        assert(comes_first_derived(rules, old, k1));
        let (q1, y1) = choose|q1: int, y1: int| #[trigger] derived_first(rules, old, k1, q1, y1);
        lemma_first_derivation_extend(rules, old, new, old[k1].0, q1, y1);
        lemma_first_derivation_unique(rules, new, new[k1].0, p1, j1, q1, y1);
        if k2 < n {
            assert(comes_first_derived(rules, old, k2));
            let (q2, y2) = choose|q2: int, y2: int| #[trigger] derived_first(rules, old, k2, q2, y2);
            lemma_first_derivation_extend(rules, old, new, old[k2].0, q2, y2);
            lemma_first_derivation_unique(rules, new, new[k2].0, p2, j2, q2, y2);
            assert(first_derivation(rules, old, old[k1].0, q1, y1));
            assert(first_derivation(rules, old, old[k2].0, q2, y2));
        } else {
            lemma_first_derivation_unique(rules, new, new[k2].0, p2, j2, i, j);
            assert(first_derivation(rules, old, old[k1].0, q1, y1));
        }
    }
}

pub open spec fn results_view(v: Seq<DeinflectionResult>) -> Seq<ResultView> {
    v.map_values(|r: DeinflectionResult| r@)
}

pub open spec fn rules_view(v: Seq<DeinflectionRule>) -> Seq<RuleView> {
    v.map_values(|r: DeinflectionRule| r@)
}

/// Rule groups as plain values: `(reason, rules)`.
pub open spec fn groups_view(v: Seq<(String, Vec<DeinflectionRule>)>) -> Seq<(Seq<char>, Seq<RuleView>)> {
    v.map_values(|g: (String, Vec<DeinflectionRule>)| (g.0@, rules_view(g.1@)))
}

/// The rules with their reason replaced by `reason`.
pub open spec fn relabel(rs: Seq<RuleView>, reason: Seq<char>) -> Seq<RuleView> {
    rs.map_values(|r: RuleView| (r.0, r.1, r.2, reason))
}

/// The rules of all groups in group order, each labelled with its group key.
pub open spec fn grouped_rules(gs: Seq<(Seq<char>, Seq<RuleView>)>) -> Seq<RuleView>
    decreases gs.len(),
{
    if gs.len() == 0 {
        Seq::empty()
    } else {
        grouped_rules(gs.drop_last()) + relabel(gs.last().1, gs.last().0)
    }
}

/// Terms of results are pairwise distinct.
pub open spec fn terms_distinct(res: Seq<ResultView>) -> bool {
    forall|a: int, b: int| 0 <= a < b < res.len() ==> res[a].0 != res[b].0
}

proof fn lemma_reach_step(rules: Seq<RuleView>, text: Seq<char>, w: Seq<char>, u: Seq<char>)
    requires
        reachable(rules, text).contains(w),
        derives(rules, w, u),
    ensures
        reachable(rules, text).contains(u),
{
    let n = choose|n: nat| #[trigger] reach_within(rules, text, n).contains(w);
    assert(reach_within(rules, text, n + 1).contains(u));
}

proof fn lemma_reach_text(rules: Seq<RuleView>, text: Seq<char>)
    ensures
        reachable(rules, text).contains(text),
{
    assert(reach_within(rules, text, 0).contains(text));
}

/// A set that holds `text` and is closed under rule application holds every
/// reachable term.
proof fn lemma_closed_holds_reachable(rules: Seq<RuleView>, text: Seq<char>, s: Set<Seq<char>>)
    requires
        s.contains(text),
        forall|w: Seq<char>, u: Seq<char>| s.contains(w) && derives(rules, w, u) ==> s.contains(u),
    ensures
        reachable(rules, text).subset_of(s),
{
    assert forall|u: Seq<char>| reachable(rules, text).contains(u) implies s.contains(u) by {
        let n = choose|n: nat| #[trigger] reach_within(rules, text, n).contains(u);
        lemma_within_subset(rules, text, s, n);
    }
}

proof fn lemma_within_subset(rules: Seq<RuleView>, text: Seq<char>, s: Set<Seq<char>>, n: nat)
    requires
        s.contains(text),
        forall|w: Seq<char>, u: Seq<char>| s.contains(w) && derives(rules, w, u) ==> s.contains(u),
    ensures
        reach_within(rules, text, n).subset_of(s),
    decreases n,
{
    if n > 0 {
        lemma_within_subset(rules, text, s, (n - 1) as nat);
    }
}

/// Every `kana_out` of the rules, one after another.
pub open spec fn all_outs(rules: Seq<RuleView>) -> Seq<char>
    decreases rules.len(),
{
    if rules.len() == 0 {
        Seq::empty()
    } else {
        all_outs(rules.drop_last()) + rules.last().1
    }
}

/// The terms of at most `n` characters, each drawn from `letters`.
pub open spec fn words_upto(letters: Set<char>, n: nat) -> Set<Seq<char>> {
    Set::new(|w: Seq<char>| w.len() <= n && forall|i: int| 0 <= i < w.len() ==> letters.contains(#[trigger] w[i]))
}

proof fn lemma_outs_hold(rules: Seq<RuleView>, j: int, k: int)
    requires
        0 <= j < rules.len(),
        0 <= k < rules[j].1.len(),
    ensures
        all_outs(rules).contains(rules[j].1[k]),
    decreases rules.len(),
{
    let q = rules.drop_last();
    if j < q.len() {
        lemma_outs_hold(q, j, k);
        assert(rules[j] == q[j]);
        let y = choose|y: int| 0 <= y < all_outs(q).len() && all_outs(q)[y] == q[j].1[k];
        assert((all_outs(q) + rules.last().1)[y] == all_outs(q)[y]);
    } else {
        assert((all_outs(q) + rules.last().1)[all_outs(q).len() + k] == rules[j].1[k]);
    }
}

proof fn lemma_words_finite(letters: Set<char>, n: nat)
    requires
        letters.finite(),
    ensures
        words_upto(letters, n).finite(),
    decreases n,
{
    if n == 0 {
        assert forall|s: Seq<char>| words_upto(letters, 0).contains(s) implies s == Seq::<char>::empty() by {
            assert(s =~= Seq::<char>::empty());
        }
        assert(words_upto(letters, 0) =~= set![Seq::<char>::empty()]);
    } else {
        let w = words_upto(letters, (n - 1) as nat);
        lemma_words_finite(letters, (n - 1) as nat);
        let grow = |c: char| w.map(|x: Seq<char>| x.push(c));
        let family = letters.map(grow);
        letters.lemma_map_finite(grow);
        assert forall|part: Set<Seq<char>>| family.contains(part) implies #[trigger] part.finite() by {
            let c = choose|c: char| letters.contains(c) && grow(c) == part;
            w.lemma_map_finite(|x: Seq<char>| x.push(c));
        }
        family.lemma_flatten_finite();
        let big = w.union(family.flatten());
        vstd::set_lib::lemma_set_union_finite_iff(w, family.flatten());
        assert forall|s: Seq<char>| words_upto(letters, n).contains(s) implies big.contains(s) by {
            if s.len() < n {
                assert(w.contains(s));
            } else {
                let x = s.drop_last();
                let c = s.last();
                assert(letters.contains(s[s.len() - 1]));
                assert forall|i: int| 0 <= i < x.len() implies letters.contains(#[trigger] x[i]) by {
                    assert(x[i] == s[i]);
                }
                assert(w.contains(x));
                assert(x.push(c) =~= s);
                assert(grow(c).contains(s));
                assert(family.contains(grow(c)));
            }
        }
        vstd::set_lib::lemma_set_subset_finite(big, words_upto(letters, n));
    }
}

/// Rules that never lengthen a term reach finitely many terms: every term
/// reachable from `text` is at most as long as `text` and is spelled with
/// characters of `text` and of the rules' replacement endings. Such rules
/// meet what [`Deinflector::deinflect`] requires.
pub proof fn law_non_lengthening_rules_reach_finitely_many(rules: Seq<RuleView>, text: Seq<char>)
    requires
        forall|j: int| 0 <= j < rules.len() ==> (#[trigger] rules[j]).1.len() <= rules[j].0.len(),
    ensures
        reachable(rules, text).finite(),
{
    let letters = (text + all_outs(rules)).to_set();
    vstd::seq_lib::seq_to_set_is_finite(text + all_outs(rules));
    let bound = words_upto(letters, text.len());
    lemma_words_finite(letters, text.len());
    assert(bound.contains(text)) by {
        assert forall|i: int| 0 <= i < text.len() implies letters.contains(#[trigger] text[i]) by {
            assert((text + all_outs(rules))[i] == text[i]);
        }
    }
    assert forall|w: Seq<char>, u: Seq<char>| bound.contains(w) && derives(rules, w, u) implies bound.contains(u) by {
        let j = choose|j: int| applies_to(rules, w, j) && u == root_of(w, rules[j]);
        let head = w.take(w.len() - rules[j].0.len());
        assert forall|i: int| 0 <= i < u.len() implies letters.contains(#[trigger] u[i]) by {
            if i < head.len() {
                assert(u[i] == w[i]);
            } else {
                let k = i - head.len();
                assert(u[i] == rules[j].1[k]);
                lemma_outs_hold(rules, j, k);
                let y = choose|y: int| 0 <= y < all_outs(rules).len() && all_outs(rules)[y] == rules[j].1[k];
                assert((text + all_outs(rules))[text.len() + y] == rules[j].1[k]);
            }
        }
    }
    lemma_closed_holds_reachable(rules, text, bound);
    vstd::set_lib::lemma_set_subset_finite(bound, reachable(rules, text));
}

/// The set of terms of the results.
pub open spec fn term_set(res: Seq<ResultView>) -> Set<Seq<char>> {
    Set::new(|t: Seq<char>| exists|k: int| 0 <= k < res.len() && res[k].0 == t)
}

/// Distinct terms inside a finite set number at most its size.
proof fn lemma_distinct_terms_fit(res: Seq<ResultView>, s: Set<Seq<char>>)
    requires
        s.finite(),
        terms_distinct(res),
        forall|k: int| 0 <= k < res.len() ==> s.contains(#[trigger] res[k].0),
    ensures
        res.len() <= s.len(),
{
    let f = |k: int| res[k].0;
    let idx = vstd::set_lib::set_int_range(0, res.len() as int);
    vstd::set_lib::lemma_int_range(0, res.len() as int);
    assert forall|a: int, b: int| idx.contains(a) && idx.contains(b) && f(a) == f(b) implies a
        == b by {
        if a < b {
            assert(res[a].0 != res[b].0);
        } else if b < a {
            assert(res[b].0 != res[a].0);
        }
    }
    let img = idx.map(f);
    assert forall|t: Seq<char>| img.contains(t) implies s.contains(t) by {
        let k = choose|k: int| idx.contains(k) && f(k) == t;
        assert(s.contains(res[k].0));
    }
    vstd::set_lib::lemma_map_size(idx, img, f);
    vstd::set_lib::lemma_len_subset(img, s);
}

/// Growing the results keeps every earlier fact about them.
proof fn lemma_prefix_preserved(rules: Seq<RuleView>, old: Seq<ResultView>, new: Seq<ResultView>)
    requires
        old.len() <= new.len(),
        forall|y: int| 0 <= y < old.len() ==> #[trigger] new[y] == old[y],
    ensures
        term_set(old).subset_of(term_set(new)),
{
    assert forall|t: Seq<char>| term_set(old).contains(t) implies term_set(new).contains(t) by {
        let k = choose|k: int| 0 <= k < old.len() && old[k].0 == t;
        assert(new[k] == old[k]);
    }
}

/// Copy of a vector of strings.
fn copy_strings(v: &Vec<String>) -> (r: Vec<String>)
    ensures
        r.deep_view() == v.deep_view(),
{
    let mut out: Vec<String> = Vec::new();
    let mut i: usize = 0;
    while i < v.len()
        invariant
            i <= v.len(),
            out.len() == i,
            forall|j: int| 0 <= j < i ==> #[trigger] out@[j]@ == v@[j]@,
        decreases v.len() - i,
    {
        out.push(v[i].clone());
        i += 1;
    }
    proof {
        assert(out.deep_view() =~= v.deep_view());
    }
    out
}

/// Whether `t` ends with `k`.
fn ends_with_chars(t: &Vec<char>, k: &Vec<char>) -> (r: bool)
    ensures
        r == ends_with(t@, k@),
{
    if k.len() > t.len() {
        return false;
    }
    let off = t.len() - k.len();
    let mut j: usize = 0;
    while j < k.len()
        invariant
            off + k.len() == t.len(),
            j <= k.len(),
            forall|x: int| 0 <= x < j ==> t@[off + x] == k@[x],
        decreases k.len() - j,
    {
        if t[off + j] != k[j] {
            proof {
                assert(t@.skip(off as int)[j as int] != k@[j as int]);
            }
            return false;
        }
        j += 1;
    }
    proof {
        assert(t@.skip(off as int) =~= k@);
    }
    true
}

/// Deinflects Japanese text by applying known conjugation rules.
pub struct Deinflector {
    rules: Vec<DeinflectionRule>,
}

impl View for Deinflector {
    type V = Seq<RuleView>;

    closed spec fn view(&self) -> Seq<RuleView> {
        rules_view(self.rules@)
    }
}

impl Deinflector {
    /// A deinflector over `rules`, in order.
    pub fn from_rules(rules: Vec<DeinflectionRule>) -> (r: Self)
        ensures
            r@ == rules_view(rules@),
    {
        Deinflector { rules }
    }

    /// A deinflector over rule groups keyed by their human-readable reason
    /// ("past", "causative", …): every rule of a group takes the group key
    /// as its reason, groups in order.
    pub fn from_groups(groups: Vec<(String, Vec<DeinflectionRule>)>) -> (r: Self)
        ensures
            r@ == grouped_rules(groups_view(groups@)),
    {
        let mut rules: Vec<DeinflectionRule> = Vec::new();
        let mut g: usize = 0;
        proof {
            assert(groups_view(groups@).take(0) =~= Seq::<(Seq<char>, Seq<RuleView>)>::empty());
            assert(rules_view(rules@) =~= Seq::<RuleView>::empty());
        }
        while g < groups.len()
            invariant
                g <= groups.len(),
                rules_view(rules@) == grouped_rules(groups_view(groups@).take(g as int)),
            decreases groups.len() - g,
        {
            let (reason, list) = &groups[g];
            let ghost start = rules_view(rules@);
            let ghost gv = groups_view(groups@)[g as int];
            proof {
                assert(gv.0 == reason@);
            }
            let mut k: usize = 0;
            while k < list.len()
                invariant
                    k <= list.len(),
                    rules_view(rules@) == start + relabel(rules_view(list@).take(k as int), reason@),
                decreases list.len() - k,
            {
                let r = &list[k];
                let relabeled = DeinflectionRule {
                    kana_in: r.kana_in.clone(),
                    kana_out: r.kana_out.clone(),
                    rules_out: copy_strings(&r.rules_out),
                    reason: reason.clone(),
                };
                let ghost before = rules@;
                rules.push(relabeled);
                proof {
                    assert(rules_view(list@).take(k + 1) =~= rules_view(list@).take(k as int).push(
                        r@,
                    ));
                    assert(relabel(rules_view(list@).take(k + 1), reason@) =~= relabel(
                        rules_view(list@).take(k as int),
                        reason@,
                    ).push((r@.0, r@.1, r@.2, reason@)));
                    assert(rules_view(rules@) =~= rules_view(before).push(relabeled@));
                }
                k += 1;
            }
            proof {
                assert(rules_view(list@).take(list.len() as int) =~= rules_view(list@));
                assert(gv.1 == rules_view(list@)) by {
                    assert(gv.1 =~= rules_view(list@));
                }
                let t = groups_view(groups@).take(g + 1);
                assert(t.drop_last() =~= groups_view(groups@).take(g as int));
                assert(t.last() == gv);
            }
            g += 1;
        }
        proof {
            assert(groups_view(groups@).take(groups.len() as int) =~= groups_view(groups@));
        }
        Deinflector { rules }
    }

    /// Create an empty deinflector (no rules).
    pub fn empty() -> (r: Self)
        ensures
            r@.len() == 0,
    {
        let d = Deinflector { rules: Vec::new() };
        proof {
            assert(d@ =~= Seq::<RuleView>::empty());
        }
        d
    }

    /// Number of rules.
    pub fn rule_count(&self) -> (r: usize)
        ensures
            r == self@.len(),
    {
        self.rules.len()
    }

    /// Deinflect the given text, returning all possible base forms. The first
    /// result is the original text with no deinflection. Every other result
    /// comes from the first derivation of its term, in (earlier result, rule
    /// order) order, carrying that result's reasons extended by the rule's
    /// label and the rule's types; results come in the order of those
    /// derivations (breadth first), no term appears twice, and every term
    /// reachable by rule applications appears.
    ///
    /// The search ends exactly when finitely many terms are reachable, which
    /// is what `requires` asks.
    pub fn deinflect(&self, text: &str) -> (r: Vec<DeinflectionResult>)
        requires
            reachable(self@, text@).finite(),
        ensures
            r.len() >= 1,
            results_view(r@)[0] == (text@, Seq::<Seq<char>>::empty(), Seq::<Seq<char>>::empty()),
            terms_distinct(results_view(r@)),
            all_derived_first(self@, results_view(r@)),
            in_derivation_order(self@, results_view(r@)),
            term_set(results_view(r@)) == reachable(self@, text@),
    {
        let ghost rules = self@;
        let ghost reach = reachable(rules, text@);
        // The rules' affixes as characters.
        let mut kins: Vec<Vec<char>> = Vec::new();
        let mut kouts: Vec<Vec<char>> = Vec::new();
        let mut q: usize = 0;
        while q < self.rules.len()
            invariant
                q <= self.rules.len(),
                rules == self@,
                kins.len() == q,
                kouts.len() == q,
                forall|j: int| 0 <= j < q ==> #[trigger] kins@[j]@ == rules[j].0,
                forall|j: int| 0 <= j < q ==> #[trigger] kouts@[j]@ == rules[j].1,
            decreases self.rules.len() - q,
        {
            let kin = chars_of(self.rules[q].kana_in.as_str());
            let kout = chars_of(self.rules[q].kana_out.as_str());
            kins.push(kin);
            kouts.push(kout);
            q += 1;
        }
        let text_chars = chars_of(text);
        let mut results: Vec<DeinflectionResult> = Vec::new();
        let mut terms: Vec<Vec<char>> = Vec::new();
        results.push(
            DeinflectionResult { term: string_of(&text_chars), reasons: Vec::new(), rule_types: Vec::new() },
        );
        terms.push(text_chars);
        proof {
            lemma_reach_text(rules, text@);
            let rv = results_view(results@);
            assert(rv[0].1 =~= Seq::<Seq<char>>::empty());
            assert(rv[0].2 =~= Seq::<Seq<char>>::empty());
        }
        let mut i: usize = 0;
        while i < results.len()
            invariant
                rules == self@,
                reach == reachable(rules, text@),
                reach.finite(),
                kins.len() == rules.len(),
                kouts.len() == rules.len(),
                forall|j: int| 0 <= j < rules.len() ==> #[trigger] kins@[j]@ == rules[j].0,
                forall|j: int| 0 <= j < rules.len() ==> #[trigger] kouts@[j]@ == rules[j].1,
                i <= results.len(),
                results.len() == terms.len(),
                results.len() >= 1,
                forall|k: int| 0 <= k < terms.len() ==> #[trigger] terms@[k]@ == results@[k]@.0,
                results_view(results@)[0] == (
                    text@,
                    Seq::<Seq<char>>::empty(),
                    Seq::<Seq<char>>::empty(),
                ),
                terms_distinct(results_view(results@)),
                forall|k: int| 0 <= k < results.len() ==> reach.contains(#[trigger] results@[k]@.0),
                all_derived_first(rules, results_view(results@)),
                in_derivation_order(rules, results_view(results@)),
                derivations_before(rules, results_view(results@), i as int, 0),
                forall|p: int, j: int|
                    0 <= p < i && applies_to(rules, results@[p]@.0, j) ==> term_set(
                        results_view(results@),
                    ).contains(root_of(results@[p]@.0, rules[j])),
            decreases reach.len() - results.len(), results.len() - i,
        {
            proof {
                lemma_distinct_terms_fit(results_view(results@), reach);
            }
            let ghost len0 = results.len();
            let ghost cur = results@[i as int]@;
            let t = copy_range(&terms[i], 0, terms[i].len());
            proof {
                assert(terms@[i as int]@.subrange(0, terms@[i as int]@.len() as int) =~= terms@[i as int]@);
            }
            let short = t.len() == 0 || (t.len() == 1 && (t[0] as u32) < 0x80);
            let reasons = copy_strings(&results[i].reasons);
            let mut j: usize = 0;
            while j < kins.len()
                invariant
                    rules == self@,
                    reach == reachable(rules, text@),
                    reach.finite(),
                    kins.len() == rules.len(),
                    kouts.len() == rules.len(),
                    forall|x: int| 0 <= x < rules.len() ==> #[trigger] kins@[x]@ == rules[x].0,
                    forall|x: int| 0 <= x < rules.len() ==> #[trigger] kouts@[x]@ == rules[x].1,
                    i < len0 <= results.len(),
                    results.len() == terms.len(),
                    t@ == cur.0,
                    reasons.deep_view() == cur.1,
                    short == too_short(cur.0),
                    results@[i as int]@ == cur,
                    forall|k: int| 0 <= k < terms.len() ==> #[trigger] terms@[k]@ == results@[k]@.0,
                    results_view(results@)[0] == (
                        text@,
                        Seq::<Seq<char>>::empty(),
                        Seq::<Seq<char>>::empty(),
                    ),
                    terms_distinct(results_view(results@)),
                    forall|k: int| 0 <= k < results.len() ==> reach.contains(#[trigger] results@[k]@.0),
                    all_derived_first(rules, results_view(results@)),
                    in_derivation_order(rules, results_view(results@)),
                    derivations_before(rules, results_view(results@), i as int, j as int),
                    forall|p: int, x: int|
                        0 <= p < i && applies_to(rules, results@[p]@.0, x) ==> term_set(
                            results_view(results@),
                        ).contains(root_of(results@[p]@.0, rules[x])),
                    forall|x: int|
                        0 <= x < j && applies_to(rules, cur.0, x) ==> term_set(
                            results_view(results@),
                        ).contains(root_of(cur.0, rules[x])),
                    j <= kins.len(),
                decreases kins.len() - j,
            {
                let ghost old_rv = results_view(results@);
                let ghost old_res = results@;
                let ghost mut pushed = false;
                if !short && ends_with_chars(&t, &kins[j]) {
                    let cut = t.len() - kins[j].len();
                    let head = copy_range(&t, 0, cut);
                    let root = concat_chars(&head, &kouts[j]);
                    proof {
                        assert(root@ == root_of(cur.0, rules[j as int]));
                    }
                    if root.len() > 0 {
                        let mut found = false;
                        let mut k: usize = 0;
                        while k < terms.len()
                            invariant
                                k <= terms.len(),
                                !found ==> forall|y: int| 0 <= y < k ==> terms@[y]@ != root@,
                                found ==> exists|y: int| 0 <= y < terms.len() && terms@[y]@ == root@,
                            decreases terms.len() - k,
                        {
                            if chars_equal(&terms[k], &root) {
                                found = true;
                            }
                            k += 1;
                        }
                        if !found {
                            let rule_types = copy_strings(&self.rules[j].rules_out);
                            let mut new_reasons = copy_strings(&reasons);
                            if !self.rules[j].reason.as_str().is_empty() {
                                let ghost nr = new_reasons.deep_view();
                                let ghost nv = new_reasons@;
                                new_reasons.push(self.rules[j].reason.clone());
                                proof {
                                    assert forall|y: int| 0 <= y < nr.len() implies #[trigger] new_reasons.deep_view()[y]
                                        == nr[y] by {
                                        assert(new_reasons@[y] == nv[y]);
                                    }
                                    assert(new_reasons.deep_view() =~= nr.push(rules[j as int].3));
                                }
                            } else {
                                proof {
                                    assert(rules[j as int].3.len() == 0);
                                }
                            }
                            let term_string = string_of(&root);
                            let ghost newk = results.len();
                            results.push(
                                DeinflectionResult { term: term_string, reasons: new_reasons, rule_types },
                            );
                            terms.push(root);
                            proof {
                                let rv = results_view(results@);
                                assert forall|y: int| 0 <= y < old_rv.len() implies #[trigger] rv[y] == old_rv[y] by {
                                    assert(results@[y] == old_res[y]);
                                }
                                assert(rv[newk as int] == (
                                    root_of(cur.0, rules[j as int]),
                                    reasons_after(cur.1, rules[j as int]),
                                    rules[j as int].2,
                                ));
                                lemma_prefix_preserved(rules, old_rv, rv);
                                assert(applies_to(rules, cur.0, j as int));
                                lemma_reach_step(rules, text@, cur.0, root@);
                                assert(applies_to(rules, rv[i as int].0, j as int));
                                assert(old_rv[i as int] == cur);
                                assert(rv =~= old_rv.push(
                                    (root_of(cur.0, rules[j as int]), reasons_after(cur.1, rules[j as int]), rules[j as int].2),
                                ));
                                assert(!term_set(old_rv).contains(root@)) by {
                                    if term_set(old_rv).contains(root@) {
                                        let y = choose|y: int| 0 <= y < old_rv.len() && old_rv[y].0 == root@;
                                        assert(terms@[y]@ == old_rv[y].0);
                                    }
                                }
                                assert forall|q: int, x: int|
                                    0 <= q < i && applies_to(rules, old_rv[q].0, x) implies term_set(old_rv).contains(
                                        root_of(old_rv[q].0, rules[x]),
                                    ) by {
                                    assert(old_rv[q] == old_res[q]@);
                                }
                                lemma_append_first(rules, old_rv, rv, i as int, j as int);
                                pushed = true;
                                assert forall|a: int, b: int| 0 <= a < b < rv.len() implies rv[a].0 != rv[b].0 by {
                                    if b == newk {
                                        assert(terms@[a]@ == rv[a].0);
                                    }
                                }
                                assert(term_set(rv).contains(root@)) by {
                                    assert(rv[newk as int].0 == root@);
                                }
                            }
                        } else {
                            proof {
                                let y = choose|y: int| 0 <= y < terms.len() && terms@[y]@ == root@;
                                assert(old_rv[y].0 == root@);
                            }
                        }
                    }
                }
                proof {
                    if !pushed {
                        lemma_derivations_before_later(rules, results_view(results@), i as int, j as int, i as int, j + 1);
                    }
                }
                j += 1;
            }
            proof {
                lemma_distinct_terms_fit(results_view(results@), reach);
                lemma_derivations_before_later(rules, results_view(results@), i as int, kins.len() as int, i + 1, 0);
            }
            i += 1;
        }
        proof {
            let rv = results_view(results@);
            let s = term_set(rv);
            assert(s.contains(text@)) by {
                assert(rv[0].0 == text@);
            }
            assert forall|w: Seq<char>, u: Seq<char>| s.contains(w) && derives(rules, w, u) implies s.contains(u) by {
                let p = choose|p: int| 0 <= p < rv.len() && rv[p].0 == w;
                let x = choose|x: int| applies_to(rules, w, x) && u == root_of(w, rules[x]);
                assert(results@[p]@.0 == w);
            }
            lemma_closed_holds_reachable(rules, text@, s);
            assert forall|u: Seq<char>| s.contains(u) implies reach.contains(u) by {
                let k = choose|k: int| 0 <= k < rv.len() && rv[k].0 == u;
                assert(reach.contains(results@[k]@.0));
            }
            assert(s =~= reach);
        }
        results
    }
}


/// Rule JSON text is a bare array of rules (rather than an object of rule
/// groups keyed by their reason) when, white space trimmed, it starts with
/// `[`.
pub fn rules_json_is_array(content: &str) -> (r: bool)
    ensures
        r == (trim(content@).len() > 0 && trim(content@)[0] == '['),
{
    let v = chars_of(content);
    let t = trim_chars(&v);
    t.len() > 0 && t[0] == '['
}

} // verus!
