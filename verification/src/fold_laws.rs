//! Properties of the lookup-variant fold and of normalisation that span all
//! inputs: every character the fold emits is settled (nothing folds it
//! further), so folding a folded text changes nothing; the measured table is
//! sorted and its canonicals are settled; and normalisation undoes the
//! vertical punctuation forms.
use vstd::prelude::*;
use crate::japanese::{
    convert_width_spec, fold_spec, fold_step, normalize_spec, vertical_punctuation_of, widen_char,
};
use crate::kana_tables::{
    curated_variant, lemma_pair_lookup_row, lemma_pair_lookup_some, lookup_variant, pair_lookup,
    HALFWIDTH_KANA, HALFWIDTH_SEMI_VOICED, HALFWIDTH_VOICED, HIRAGANA_VOICED, KATAKANA_VOICED,
    MEASURED_VARIANTS,
};

verus! {

/// The keys of `t` ascend strictly from row `i` on.
pub open spec fn keys_ascend_from(t: Seq<(char, char)>, i: int) -> bool
    decreases t.len() - i,
{
    i < 0 || i + 1 >= t.len() || ((t[i].0 as u32) < (t[i + 1].0 as u32) && keys_ascend_from(t, i + 1))
}

/// The measured table is sorted by variant, with no variant twice.
proof fn lemma_measured_keys_ascend()
    ensures
        keys_ascend_from(MEASURED_VARIANTS@, 0),
{
    assert(MEASURED_VARIANTS@.len() == 165);
    assert(keys_ascend_from(MEASURED_VARIANTS@, 164));
    assert(keys_ascend_from(MEASURED_VARIANTS@, 163));
    assert(keys_ascend_from(MEASURED_VARIANTS@, 162));
    assert(keys_ascend_from(MEASURED_VARIANTS@, 161));
    assert(keys_ascend_from(MEASURED_VARIANTS@, 160));
    assert(keys_ascend_from(MEASURED_VARIANTS@, 159));
    assert(keys_ascend_from(MEASURED_VARIANTS@, 158));
    assert(keys_ascend_from(MEASURED_VARIANTS@, 157));
    assert(keys_ascend_from(MEASURED_VARIANTS@, 156));
    assert(keys_ascend_from(MEASURED_VARIANTS@, 155));
    assert(keys_ascend_from(MEASURED_VARIANTS@, 154));
    assert(keys_ascend_from(MEASURED_VARIANTS@, 153));
    assert(keys_ascend_from(MEASURED_VARIANTS@, 152));
    assert(keys_ascend_from(MEASURED_VARIANTS@, 151));
    assert(keys_ascend_from(MEASURED_VARIANTS@, 150));
    assert(keys_ascend_from(MEASURED_VARIANTS@, 149));
    assert(keys_ascend_from(MEASURED_VARIANTS@, 148));
    assert(keys_ascend_from(MEASURED_VARIANTS@, 147));
    assert(keys_ascend_from(MEASURED_VARIANTS@, 146));
    assert(keys_ascend_from(MEASURED_VARIANTS@, 145));
    assert(keys_ascend_from(MEASURED_VARIANTS@, 144));
    assert(keys_ascend_from(MEASURED_VARIANTS@, 143));
    assert(keys_ascend_from(MEASURED_VARIANTS@, 142));
    assert(keys_ascend_from(MEASURED_VARIANTS@, 141));
    assert(keys_ascend_from(MEASURED_VARIANTS@, 140));
    assert(keys_ascend_from(MEASURED_VARIANTS@, 139));
    assert(keys_ascend_from(MEASURED_VARIANTS@, 138));
    assert(keys_ascend_from(MEASURED_VARIANTS@, 137));
    assert(keys_ascend_from(MEASURED_VARIANTS@, 136));
    assert(keys_ascend_from(MEASURED_VARIANTS@, 135));
    assert(keys_ascend_from(MEASURED_VARIANTS@, 134));
    assert(keys_ascend_from(MEASURED_VARIANTS@, 133));
    assert(keys_ascend_from(MEASURED_VARIANTS@, 132));
    assert(keys_ascend_from(MEASURED_VARIANTS@, 131));
    assert(keys_ascend_from(MEASURED_VARIANTS@, 130));
    assert(keys_ascend_from(MEASURED_VARIANTS@, 129));
    assert(keys_ascend_from(MEASURED_VARIANTS@, 128));
    assert(keys_ascend_from(MEASURED_VARIANTS@, 127));
    assert(keys_ascend_from(MEASURED_VARIANTS@, 126));
    assert(keys_ascend_from(MEASURED_VARIANTS@, 125));
    assert(keys_ascend_from(MEASURED_VARIANTS@, 124));
    assert(keys_ascend_from(MEASURED_VARIANTS@, 123));
    assert(keys_ascend_from(MEASURED_VARIANTS@, 122));
    assert(keys_ascend_from(MEASURED_VARIANTS@, 121));
    assert(keys_ascend_from(MEASURED_VARIANTS@, 120));
    assert(keys_ascend_from(MEASURED_VARIANTS@, 119));
    assert(keys_ascend_from(MEASURED_VARIANTS@, 118));
    assert(keys_ascend_from(MEASURED_VARIANTS@, 117));
    assert(keys_ascend_from(MEASURED_VARIANTS@, 116));
    assert(keys_ascend_from(MEASURED_VARIANTS@, 115));
    assert(keys_ascend_from(MEASURED_VARIANTS@, 114));
    assert(keys_ascend_from(MEASURED_VARIANTS@, 113));
    assert(keys_ascend_from(MEASURED_VARIANTS@, 112));
    assert(keys_ascend_from(MEASURED_VARIANTS@, 111));
    assert(keys_ascend_from(MEASURED_VARIANTS@, 110));
    assert(keys_ascend_from(MEASURED_VARIANTS@, 109));
    assert(keys_ascend_from(MEASURED_VARIANTS@, 108));
    assert(keys_ascend_from(MEASURED_VARIANTS@, 107));
    assert(keys_ascend_from(MEASURED_VARIANTS@, 106));
    assert(keys_ascend_from(MEASURED_VARIANTS@, 105));
    assert(keys_ascend_from(MEASURED_VARIANTS@, 104));
    assert(keys_ascend_from(MEASURED_VARIANTS@, 103));
    assert(keys_ascend_from(MEASURED_VARIANTS@, 102));
    assert(keys_ascend_from(MEASURED_VARIANTS@, 101));
    assert(keys_ascend_from(MEASURED_VARIANTS@, 100));
    assert(keys_ascend_from(MEASURED_VARIANTS@, 99));
    assert(keys_ascend_from(MEASURED_VARIANTS@, 98));
    assert(keys_ascend_from(MEASURED_VARIANTS@, 97));
    assert(keys_ascend_from(MEASURED_VARIANTS@, 96));
    assert(keys_ascend_from(MEASURED_VARIANTS@, 95));
    assert(keys_ascend_from(MEASURED_VARIANTS@, 94));
    assert(keys_ascend_from(MEASURED_VARIANTS@, 93));
    assert(keys_ascend_from(MEASURED_VARIANTS@, 92));
    assert(keys_ascend_from(MEASURED_VARIANTS@, 91));
    assert(keys_ascend_from(MEASURED_VARIANTS@, 90));
    assert(keys_ascend_from(MEASURED_VARIANTS@, 89));
    assert(keys_ascend_from(MEASURED_VARIANTS@, 88));
    assert(keys_ascend_from(MEASURED_VARIANTS@, 87));
    assert(keys_ascend_from(MEASURED_VARIANTS@, 86));
    assert(keys_ascend_from(MEASURED_VARIANTS@, 85));
    assert(keys_ascend_from(MEASURED_VARIANTS@, 84));
    assert(keys_ascend_from(MEASURED_VARIANTS@, 83));
    assert(keys_ascend_from(MEASURED_VARIANTS@, 82));
    assert(keys_ascend_from(MEASURED_VARIANTS@, 81));
    assert(keys_ascend_from(MEASURED_VARIANTS@, 80));
    assert(keys_ascend_from(MEASURED_VARIANTS@, 79));
    assert(keys_ascend_from(MEASURED_VARIANTS@, 78));
    assert(keys_ascend_from(MEASURED_VARIANTS@, 77));
    assert(keys_ascend_from(MEASURED_VARIANTS@, 76));
    assert(keys_ascend_from(MEASURED_VARIANTS@, 75));
    assert(keys_ascend_from(MEASURED_VARIANTS@, 74));
    assert(keys_ascend_from(MEASURED_VARIANTS@, 73));
    assert(keys_ascend_from(MEASURED_VARIANTS@, 72));
    assert(keys_ascend_from(MEASURED_VARIANTS@, 71));
    assert(keys_ascend_from(MEASURED_VARIANTS@, 70));
    assert(keys_ascend_from(MEASURED_VARIANTS@, 69));
    assert(keys_ascend_from(MEASURED_VARIANTS@, 68));
    assert(keys_ascend_from(MEASURED_VARIANTS@, 67));
    assert(keys_ascend_from(MEASURED_VARIANTS@, 66));
    assert(keys_ascend_from(MEASURED_VARIANTS@, 65));
    assert(keys_ascend_from(MEASURED_VARIANTS@, 64));
    assert(keys_ascend_from(MEASURED_VARIANTS@, 63));
    assert(keys_ascend_from(MEASURED_VARIANTS@, 62));
    assert(keys_ascend_from(MEASURED_VARIANTS@, 61));
    assert(keys_ascend_from(MEASURED_VARIANTS@, 60));
    assert(keys_ascend_from(MEASURED_VARIANTS@, 59));
    assert(keys_ascend_from(MEASURED_VARIANTS@, 58));
    assert(keys_ascend_from(MEASURED_VARIANTS@, 57));
    assert(keys_ascend_from(MEASURED_VARIANTS@, 56));
    assert(keys_ascend_from(MEASURED_VARIANTS@, 55));
    assert(keys_ascend_from(MEASURED_VARIANTS@, 54));
    assert(keys_ascend_from(MEASURED_VARIANTS@, 53));
    assert(keys_ascend_from(MEASURED_VARIANTS@, 52));
    assert(keys_ascend_from(MEASURED_VARIANTS@, 51));
    assert(keys_ascend_from(MEASURED_VARIANTS@, 50));
    assert(keys_ascend_from(MEASURED_VARIANTS@, 49));
    assert(keys_ascend_from(MEASURED_VARIANTS@, 48));
    assert(keys_ascend_from(MEASURED_VARIANTS@, 47));
    assert(keys_ascend_from(MEASURED_VARIANTS@, 46));
    assert(keys_ascend_from(MEASURED_VARIANTS@, 45));
    assert(keys_ascend_from(MEASURED_VARIANTS@, 44));
    assert(keys_ascend_from(MEASURED_VARIANTS@, 43));
    assert(keys_ascend_from(MEASURED_VARIANTS@, 42));
    assert(keys_ascend_from(MEASURED_VARIANTS@, 41));
    assert(keys_ascend_from(MEASURED_VARIANTS@, 40));
    assert(keys_ascend_from(MEASURED_VARIANTS@, 39));
    assert(keys_ascend_from(MEASURED_VARIANTS@, 38));
    assert(keys_ascend_from(MEASURED_VARIANTS@, 37));
    assert(keys_ascend_from(MEASURED_VARIANTS@, 36));
    assert(keys_ascend_from(MEASURED_VARIANTS@, 35));
    assert(keys_ascend_from(MEASURED_VARIANTS@, 34));
    assert(keys_ascend_from(MEASURED_VARIANTS@, 33));
    assert(keys_ascend_from(MEASURED_VARIANTS@, 32));
    assert(keys_ascend_from(MEASURED_VARIANTS@, 31));
    assert(keys_ascend_from(MEASURED_VARIANTS@, 30));
    assert(keys_ascend_from(MEASURED_VARIANTS@, 29));
    assert(keys_ascend_from(MEASURED_VARIANTS@, 28));
    assert(keys_ascend_from(MEASURED_VARIANTS@, 27));
    assert(keys_ascend_from(MEASURED_VARIANTS@, 26));
    assert(keys_ascend_from(MEASURED_VARIANTS@, 25));
    assert(keys_ascend_from(MEASURED_VARIANTS@, 24));
    assert(keys_ascend_from(MEASURED_VARIANTS@, 23));
    assert(keys_ascend_from(MEASURED_VARIANTS@, 22));
    assert(keys_ascend_from(MEASURED_VARIANTS@, 21));
    assert(keys_ascend_from(MEASURED_VARIANTS@, 20));
    assert(keys_ascend_from(MEASURED_VARIANTS@, 19));
    assert(keys_ascend_from(MEASURED_VARIANTS@, 18));
    assert(keys_ascend_from(MEASURED_VARIANTS@, 17));
    assert(keys_ascend_from(MEASURED_VARIANTS@, 16));
    assert(keys_ascend_from(MEASURED_VARIANTS@, 15));
    assert(keys_ascend_from(MEASURED_VARIANTS@, 14));
    assert(keys_ascend_from(MEASURED_VARIANTS@, 13));
    assert(keys_ascend_from(MEASURED_VARIANTS@, 12));
    assert(keys_ascend_from(MEASURED_VARIANTS@, 11));
    assert(keys_ascend_from(MEASURED_VARIANTS@, 10));
    assert(keys_ascend_from(MEASURED_VARIANTS@, 9));
    assert(keys_ascend_from(MEASURED_VARIANTS@, 8));
    assert(keys_ascend_from(MEASURED_VARIANTS@, 7));
    assert(keys_ascend_from(MEASURED_VARIANTS@, 6));
    assert(keys_ascend_from(MEASURED_VARIANTS@, 5));
    assert(keys_ascend_from(MEASURED_VARIANTS@, 4));
    assert(keys_ascend_from(MEASURED_VARIANTS@, 3));
    assert(keys_ascend_from(MEASURED_VARIANTS@, 2));
    assert(keys_ascend_from(MEASURED_VARIANTS@, 1));
    assert(keys_ascend_from(MEASURED_VARIANTS@, 0));
}

/// Ascending from row `i` orders any two later rows.
proof fn lemma_ascend_orders(t: Seq<(char, char)>, i: int, a: int, b: int)
    requires
        0 <= i <= a < b < t.len(),
        keys_ascend_from(t, i),
    ensures
        (t[a].0 as u32) < (t[b].0 as u32),
    decreases b - i,
{
    if i < a {
        lemma_ascend_orders(t, i + 1, a, b);
    } else if a + 1 < b {
        lemma_ascend_orders(t, i + 1, a + 1, b);
    }
}

/// A character strictly between two neighbouring keys of an ascending table
/// (or before the first, or after the last) is not a key.
proof fn lemma_absent_between(t: Seq<(char, char)>, p: int, c: char)
    requires
        keys_ascend_from(t, 0),
        -1 <= p < t.len(),
        p == -1 || (t[p].0 as u32) < (c as u32),
        p + 1 == t.len() || (c as u32) < (t[p + 1].0 as u32),
    ensures
        pair_lookup(t, c) is None,
{
    lemma_pair_lookup_some(t, c);
    if pair_lookup(t, c) is Some {
        let k = choose|k: int| 0 <= k < t.len() && t[k].0 == c;
        if k <= p {
            if k < p {
                lemma_ascend_orders(t, 0, k, p);
            }
        } else {
            if p + 1 < k {
                lemma_ascend_orders(t, 0, p + 1, k);
            }
        }
    }
}

/// One of the iteration marks ゝ ゞ ヽ ヾ.
pub open spec fn is_iteration_mark(c: char) -> bool {
    c == 'ゝ' || c == 'ゞ' || c == 'ヽ' || c == 'ヾ'
}

/// Nothing folds `c` further: it has no lookup variant and is no iteration
/// mark.
pub open spec fn settled(c: char) -> bool {
    lookup_variant(c) is None && !is_iteration_mark(c)
}

/// The second sides of rows `i..` of `t` are settled.
pub open spec fn targets_settled_from(t: Seq<(char, char)>, i: int) -> bool
    decreases t.len() - i,
{
    i < 0 || i >= t.len() || (settled(t[i].1) && targets_settled_from(t, i + 1))
}

proof fn lemma_targets_settled(t: Seq<(char, char)>, i: int, k: int)
    requires
        0 <= i <= k < t.len(),
        targets_settled_from(t, i),
    ensures
        settled(t[k].1),
    decreases k - i,
{
    if i < k {
        lemma_targets_settled(t, i + 1, k);
    }
}

/// Every canonical of the measured table is settled: no canonical is itself
/// a variant, so one pass reaches the terminal form.
#[verifier::rlimit(60)]
proof fn lemma_measured_targets_settled()
    ensures
        targets_settled_from(MEASURED_VARIANTS@, 0),
{
    lemma_measured_keys_ascend();
    let t = MEASURED_VARIANTS@;
    assert(t.len() == 165);
    assert(targets_settled_from(t, 165));
    lemma_absent_between(t, 44, t[164].1);
    assert(targets_settled_from(t, 164));
    lemma_absent_between(t, 27, t[163].1);
    assert(targets_settled_from(t, 163));
    lemma_absent_between(t, 72, t[162].1);
    assert(targets_settled_from(t, 162));
    lemma_absent_between(t, 159, t[161].1);
    assert(targets_settled_from(t, 161));
    lemma_absent_between(t, 161, t[160].1);
    assert(targets_settled_from(t, 160));
    lemma_absent_between(t, 99, t[159].1);
    assert(targets_settled_from(t, 159));
    lemma_absent_between(t, 156, t[158].1);
    assert(targets_settled_from(t, 158));
    lemma_absent_between(t, 145, t[157].1);
    assert(targets_settled_from(t, 157));
    lemma_absent_between(t, 155, t[156].1);
    assert(targets_settled_from(t, 156));
    lemma_absent_between(t, 155, t[155].1);
    assert(targets_settled_from(t, 155));
    lemma_absent_between(t, 154, t[154].1);
    assert(targets_settled_from(t, 154));
    lemma_absent_between(t, 154, t[153].1);
    assert(targets_settled_from(t, 153));
    lemma_absent_between(t, 147, t[152].1);
    assert(targets_settled_from(t, 152));
    lemma_absent_between(t, 150, t[151].1);
    assert(targets_settled_from(t, 151));
    lemma_absent_between(t, 9, t[150].1);
    assert(targets_settled_from(t, 150));
    lemma_absent_between(t, 149, t[149].1);
    assert(targets_settled_from(t, 149));
    lemma_absent_between(t, 26, t[148].1);
    assert(targets_settled_from(t, 148));
    lemma_absent_between(t, 147, t[147].1);
    assert(targets_settled_from(t, 147));
    lemma_absent_between(t, 26, t[146].1);
    assert(targets_settled_from(t, 146));
    lemma_absent_between(t, 34, t[145].1);
    assert(targets_settled_from(t, 145));
    lemma_absent_between(t, 143, t[144].1);
    assert(targets_settled_from(t, 144));
    lemma_absent_between(t, 154, t[143].1);
    assert(targets_settled_from(t, 143));
    lemma_absent_between(t, 141, t[142].1);
    assert(targets_settled_from(t, 142));
    lemma_absent_between(t, 141, t[141].1);
    assert(targets_settled_from(t, 141));
    lemma_absent_between(t, 25, t[140].1);
    assert(targets_settled_from(t, 140));
    lemma_absent_between(t, 139, t[139].1);
    assert(targets_settled_from(t, 139));
    lemma_absent_between(t, 11, t[138].1);
    assert(targets_settled_from(t, 138));
    lemma_absent_between(t, 132, t[137].1);
    assert(targets_settled_from(t, 137));
    lemma_absent_between(t, 137, t[136].1);
    assert(targets_settled_from(t, 136));
    lemma_absent_between(t, 134, t[135].1);
    assert(targets_settled_from(t, 135));
    lemma_absent_between(t, 53, t[134].1);
    assert(targets_settled_from(t, 134));
    lemma_absent_between(t, 9, t[133].1);
    assert(targets_settled_from(t, 133));
    lemma_absent_between(t, 163, t[132].1);
    assert(targets_settled_from(t, 132));
    lemma_absent_between(t, 132, t[131].1);
    assert(targets_settled_from(t, 131));
    lemma_absent_between(t, 27, t[130].1);
    assert(targets_settled_from(t, 130));
    lemma_absent_between(t, 66, t[129].1);
    assert(targets_settled_from(t, 129));
    lemma_absent_between(t, 127, t[128].1);
    assert(targets_settled_from(t, 128));
    lemma_absent_between(t, 126, t[127].1);
    assert(targets_settled_from(t, 127));
    lemma_absent_between(t, 146, t[126].1);
    assert(targets_settled_from(t, 126));
    lemma_absent_between(t, 120, t[125].1);
    assert(targets_settled_from(t, 125));
    lemma_absent_between(t, 120, t[124].1);
    assert(targets_settled_from(t, 124));
    lemma_absent_between(t, 122, t[123].1);
    assert(targets_settled_from(t, 123));
    lemma_absent_between(t, 120, t[122].1);
    assert(targets_settled_from(t, 122));
    lemma_absent_between(t, 121, t[121].1);
    assert(targets_settled_from(t, 121));
    lemma_absent_between(t, 26, t[120].1);
    assert(targets_settled_from(t, 120));
    lemma_absent_between(t, 117, t[119].1);
    assert(targets_settled_from(t, 119));
    lemma_absent_between(t, 35, t[118].1);
    assert(targets_settled_from(t, 118));
    lemma_absent_between(t, 117, t[117].1);
    assert(targets_settled_from(t, 117));
    lemma_absent_between(t, 83, t[116].1);
    assert(targets_settled_from(t, 116));
    lemma_absent_between(t, 7, t[115].1);
    assert(targets_settled_from(t, 115));
    lemma_absent_between(t, 113, t[114].1);
    assert(targets_settled_from(t, 114));
    lemma_absent_between(t, 112, t[113].1);
    assert(targets_settled_from(t, 113));
    lemma_absent_between(t, 64, t[112].1);
    assert(targets_settled_from(t, 112));
    lemma_absent_between(t, 57, t[111].1);
    assert(targets_settled_from(t, 111));
    lemma_absent_between(t, 109, t[110].1);
    assert(targets_settled_from(t, 110));
    lemma_absent_between(t, 108, t[109].1);
    assert(targets_settled_from(t, 109));
    lemma_absent_between(t, 34, t[108].1);
    assert(targets_settled_from(t, 108));
    lemma_absent_between(t, 107, t[107].1);
    assert(targets_settled_from(t, 107));
    lemma_absent_between(t, 49, t[106].1);
    assert(targets_settled_from(t, 106));
    lemma_absent_between(t, 105, t[105].1);
    assert(targets_settled_from(t, 105));
    lemma_absent_between(t, 101, t[104].1);
    assert(targets_settled_from(t, 104));
    lemma_absent_between(t, 102, t[103].1);
    assert(targets_settled_from(t, 103));
    lemma_absent_between(t, 102, t[102].1);
    assert(targets_settled_from(t, 102));
    lemma_absent_between(t, 94, t[101].1);
    assert(targets_settled_from(t, 101));
    lemma_absent_between(t, 101, t[100].1);
    assert(targets_settled_from(t, 100));
    lemma_absent_between(t, 98, t[99].1);
    assert(targets_settled_from(t, 99));
    lemma_absent_between(t, 98, t[98].1);
    assert(targets_settled_from(t, 98));
    lemma_absent_between(t, 35, t[97].1);
    assert(targets_settled_from(t, 97));
    lemma_absent_between(t, 95, t[96].1);
    assert(targets_settled_from(t, 96));
    lemma_absent_between(t, 94, t[95].1);
    assert(targets_settled_from(t, 95));
    lemma_absent_between(t, 93, t[94].1);
    assert(targets_settled_from(t, 94));
    lemma_absent_between(t, 118, t[93].1);
    assert(targets_settled_from(t, 93));
    lemma_absent_between(t, 86, t[92].1);
    assert(targets_settled_from(t, 92));
    lemma_absent_between(t, 86, t[91].1);
    assert(targets_settled_from(t, 91));
    lemma_absent_between(t, 88, t[90].1);
    assert(targets_settled_from(t, 90));
    lemma_absent_between(t, 49, t[89].1);
    assert(targets_settled_from(t, 89));
    lemma_absent_between(t, 94, t[88].1);
    assert(targets_settled_from(t, 88));
    lemma_absent_between(t, 88, t[87].1);
    assert(targets_settled_from(t, 87));
    lemma_absent_between(t, 86, t[86].1);
    assert(targets_settled_from(t, 86));
    lemma_absent_between(t, 75, t[85].1);
    assert(targets_settled_from(t, 85));
    lemma_absent_between(t, 58, t[84].1);
    assert(targets_settled_from(t, 84));
    lemma_absent_between(t, 127, t[83].1);
    assert(targets_settled_from(t, 83));
    lemma_absent_between(t, 130, t[82].1);
    assert(targets_settled_from(t, 82));
    lemma_absent_between(t, 80, t[81].1);
    assert(targets_settled_from(t, 81));
    lemma_absent_between(t, 49, t[80].1);
    assert(targets_settled_from(t, 80));
    lemma_absent_between(t, 79, t[79].1);
    assert(targets_settled_from(t, 79));
    lemma_absent_between(t, 79, t[78].1);
    assert(targets_settled_from(t, 78));
    lemma_absent_between(t, 117, t[77].1);
    assert(targets_settled_from(t, 77));
    lemma_absent_between(t, 85, t[76].1);
    assert(targets_settled_from(t, 76));
    lemma_absent_between(t, 74, t[75].1);
    assert(targets_settled_from(t, 75));
    lemma_absent_between(t, 72, t[74].1);
    assert(targets_settled_from(t, 74));
    lemma_absent_between(t, 73, t[73].1);
    assert(targets_settled_from(t, 73));
    lemma_absent_between(t, 68, t[72].1);
    assert(targets_settled_from(t, 72));
    lemma_absent_between(t, 66, t[71].1);
    assert(targets_settled_from(t, 71));
    lemma_absent_between(t, 69, t[70].1);
    assert(targets_settled_from(t, 70));
    lemma_absent_between(t, 69, t[69].1);
    assert(targets_settled_from(t, 69));
    lemma_absent_between(t, 67, t[68].1);
    assert(targets_settled_from(t, 68));
    lemma_absent_between(t, 27, t[67].1);
    assert(targets_settled_from(t, 67));
    lemma_absent_between(t, 65, t[66].1);
    assert(targets_settled_from(t, 66));
    lemma_absent_between(t, 154, t[65].1);
    assert(targets_settled_from(t, 65));
    lemma_absent_between(t, 60, t[64].1);
    assert(targets_settled_from(t, 64));
    lemma_absent_between(t, 26, t[63].1);
    assert(targets_settled_from(t, 63));
    lemma_absent_between(t, 61, t[62].1);
    assert(targets_settled_from(t, 62));
    lemma_absent_between(t, 61, t[61].1);
    assert(targets_settled_from(t, 61));
    lemma_absent_between(t, 57, t[60].1);
    assert(targets_settled_from(t, 60));
    lemma_absent_between(t, 9, t[59].1);
    assert(targets_settled_from(t, 59));
    lemma_absent_between(t, 57, t[58].1);
    assert(targets_settled_from(t, 58));
    lemma_absent_between(t, 73, t[57].1);
    assert(targets_settled_from(t, 57));
    lemma_absent_between(t, 55, t[56].1);
    assert(targets_settled_from(t, 56));
    lemma_absent_between(t, 56, t[55].1);
    assert(targets_settled_from(t, 55));
    lemma_absent_between(t, 53, t[54].1);
    assert(targets_settled_from(t, 54));
    lemma_absent_between(t, 49, t[53].1);
    assert(targets_settled_from(t, 53));
    lemma_absent_between(t, 52, t[52].1);
    assert(targets_settled_from(t, 52));
    lemma_absent_between(t, 51, t[51].1);
    assert(targets_settled_from(t, 51));
    lemma_absent_between(t, 27, t[50].1);
    assert(targets_settled_from(t, 50));
    lemma_absent_between(t, 48, t[49].1);
    assert(targets_settled_from(t, 49));
    lemma_absent_between(t, 9, t[48].1);
    assert(targets_settled_from(t, 48));
    lemma_absent_between(t, 125, t[47].1);
    assert(targets_settled_from(t, 47));
    lemma_absent_between(t, 101, t[46].1);
    assert(targets_settled_from(t, 46));
    lemma_absent_between(t, 154, t[45].1);
    assert(targets_settled_from(t, 45));
    lemma_absent_between(t, 43, t[44].1);
    assert(targets_settled_from(t, 44));
    lemma_absent_between(t, 42, t[43].1);
    assert(targets_settled_from(t, 43));
    lemma_absent_between(t, 42, t[42].1);
    assert(targets_settled_from(t, 42));
    lemma_absent_between(t, 42, t[41].1);
    assert(targets_settled_from(t, 41));
    lemma_absent_between(t, 39, t[40].1);
    assert(targets_settled_from(t, 40));
    lemma_absent_between(t, 37, t[39].1);
    assert(targets_settled_from(t, 39));
    lemma_absent_between(t, 12, t[38].1);
    assert(targets_settled_from(t, 38));
    lemma_absent_between(t, 36, t[37].1);
    assert(targets_settled_from(t, 37));
    lemma_absent_between(t, 36, t[36].1);
    assert(targets_settled_from(t, 36));
    lemma_absent_between(t, 39, t[35].1);
    assert(targets_settled_from(t, 35));
    lemma_absent_between(t, 144, t[34].1);
    assert(targets_settled_from(t, 34));
    lemma_absent_between(t, 32, t[33].1);
    assert(targets_settled_from(t, 33));
    lemma_absent_between(t, 32, t[32].1);
    assert(targets_settled_from(t, 32));
    lemma_absent_between(t, 27, t[31].1);
    assert(targets_settled_from(t, 31));
    lemma_absent_between(t, 27, t[30].1);
    assert(targets_settled_from(t, 30));
    lemma_absent_between(t, 27, t[29].1);
    assert(targets_settled_from(t, 29));
    lemma_absent_between(t, 29, t[28].1);
    assert(targets_settled_from(t, 28));
    lemma_absent_between(t, 49, t[27].1);
    assert(targets_settled_from(t, 27));
    lemma_absent_between(t, 60, t[26].1);
    assert(targets_settled_from(t, 26));
    lemma_absent_between(t, 24, t[25].1);
    assert(targets_settled_from(t, 25));
    lemma_absent_between(t, 64, t[24].1);
    assert(targets_settled_from(t, 24));
    lemma_absent_between(t, 35, t[23].1);
    assert(targets_settled_from(t, 23));
    lemma_absent_between(t, 22, t[22].1);
    assert(targets_settled_from(t, 22));
    lemma_absent_between(t, 20, t[21].1);
    assert(targets_settled_from(t, 21));
    lemma_absent_between(t, 20, t[20].1);
    assert(targets_settled_from(t, 20));
    lemma_absent_between(t, 18, t[19].1);
    assert(targets_settled_from(t, 19));
    lemma_absent_between(t, 17, t[18].1);
    assert(targets_settled_from(t, 18));
    lemma_absent_between(t, 51, t[17].1);
    assert(targets_settled_from(t, 17));
    lemma_absent_between(t, 67, t[16].1);
    assert(targets_settled_from(t, 16));
    lemma_absent_between(t, 68, t[15].1);
    assert(targets_settled_from(t, 15));
    lemma_absent_between(t, 66, t[14].1);
    assert(targets_settled_from(t, 14));
    lemma_absent_between(t, 12, t[13].1);
    assert(targets_settled_from(t, 13));
    lemma_absent_between(t, 11, t[12].1);
    assert(targets_settled_from(t, 12));
    lemma_absent_between(t, 10, t[11].1);
    assert(targets_settled_from(t, 11));
    lemma_absent_between(t, 60, t[10].1);
    assert(targets_settled_from(t, 10));
    lemma_absent_between(t, 8, t[9].1);
    assert(targets_settled_from(t, 9));
    lemma_absent_between(t, 47, t[8].1);
    assert(targets_settled_from(t, 8));
    lemma_absent_between(t, 154, t[7].1);
    assert(targets_settled_from(t, 7));
    lemma_absent_between(t, 153, t[6].1);
    assert(targets_settled_from(t, 6));
    lemma_absent_between(t, 148, t[5].1);
    assert(targets_settled_from(t, 5));
    lemma_absent_between(t, 125, t[4].1);
    assert(targets_settled_from(t, 4));
    lemma_absent_between(t, 122, t[3].1);
    assert(targets_settled_from(t, 3));
    lemma_absent_between(t, 84, t[2].1);
    assert(targets_settled_from(t, 2));
    lemma_absent_between(t, 27, t[1].1);
    assert(targets_settled_from(t, 1));
    lemma_absent_between(t, 19, t[0].1);
    assert(targets_settled_from(t, 0));
}

/// The voiced forms the voiced iteration marks produce are settled.
proof fn lemma_voiced_targets_settled()
    ensures
        targets_settled_from(HIRAGANA_VOICED@, 0),
        targets_settled_from(KATAKANA_VOICED@, 0),
{
    lemma_measured_keys_ascend();
    let m = MEASURED_VARIANTS@;
    let h = HIRAGANA_VOICED@;
    let k = KATAKANA_VOICED@;
    assert(h.len() == 21 && k.len() == 21);
    assert(targets_settled_from(h, 21));
    assert(targets_settled_from(k, 21));
    lemma_absent_between(m, -1, h[20].1);
    assert(targets_settled_from(h, 20));
    lemma_absent_between(m, -1, h[19].1);
    assert(targets_settled_from(h, 19));
    lemma_absent_between(m, -1, h[18].1);
    assert(targets_settled_from(h, 18));
    lemma_absent_between(m, -1, h[17].1);
    assert(targets_settled_from(h, 17));
    lemma_absent_between(m, -1, h[16].1);
    assert(targets_settled_from(h, 16));
    lemma_absent_between(m, -1, h[15].1);
    assert(targets_settled_from(h, 15));
    lemma_absent_between(m, -1, h[14].1);
    assert(targets_settled_from(h, 14));
    lemma_absent_between(m, -1, h[13].1);
    assert(targets_settled_from(h, 13));
    lemma_absent_between(m, -1, h[12].1);
    assert(targets_settled_from(h, 12));
    lemma_absent_between(m, -1, h[11].1);
    assert(targets_settled_from(h, 11));
    lemma_absent_between(m, -1, h[10].1);
    assert(targets_settled_from(h, 10));
    lemma_absent_between(m, -1, h[9].1);
    assert(targets_settled_from(h, 9));
    lemma_absent_between(m, -1, h[8].1);
    assert(targets_settled_from(h, 8));
    lemma_absent_between(m, -1, h[7].1);
    assert(targets_settled_from(h, 7));
    lemma_absent_between(m, -1, h[6].1);
    assert(targets_settled_from(h, 6));
    lemma_absent_between(m, -1, h[5].1);
    assert(targets_settled_from(h, 5));
    lemma_absent_between(m, -1, h[4].1);
    assert(targets_settled_from(h, 4));
    lemma_absent_between(m, -1, h[3].1);
    assert(targets_settled_from(h, 3));
    lemma_absent_between(m, -1, h[2].1);
    assert(targets_settled_from(h, 2));
    lemma_absent_between(m, -1, h[1].1);
    assert(targets_settled_from(h, 1));
    lemma_absent_between(m, -1, h[0].1);
    assert(targets_settled_from(h, 0));
    lemma_absent_between(m, -1, k[20].1);
    assert(targets_settled_from(k, 20));
    lemma_absent_between(m, -1, k[19].1);
    assert(targets_settled_from(k, 19));
    lemma_absent_between(m, -1, k[18].1);
    assert(targets_settled_from(k, 18));
    lemma_absent_between(m, -1, k[17].1);
    assert(targets_settled_from(k, 17));
    lemma_absent_between(m, -1, k[16].1);
    assert(targets_settled_from(k, 16));
    lemma_absent_between(m, -1, k[15].1);
    assert(targets_settled_from(k, 15));
    lemma_absent_between(m, -1, k[14].1);
    assert(targets_settled_from(k, 14));
    lemma_absent_between(m, -1, k[13].1);
    assert(targets_settled_from(k, 13));
    lemma_absent_between(m, -1, k[12].1);
    assert(targets_settled_from(k, 12));
    lemma_absent_between(m, -1, k[11].1);
    assert(targets_settled_from(k, 11));
    lemma_absent_between(m, -1, k[10].1);
    assert(targets_settled_from(k, 10));
    lemma_absent_between(m, -1, k[9].1);
    assert(targets_settled_from(k, 9));
    lemma_absent_between(m, -1, k[8].1);
    assert(targets_settled_from(k, 8));
    lemma_absent_between(m, -1, k[7].1);
    assert(targets_settled_from(k, 7));
    lemma_absent_between(m, -1, k[6].1);
    assert(targets_settled_from(k, 6));
    lemma_absent_between(m, -1, k[5].1);
    assert(targets_settled_from(k, 5));
    lemma_absent_between(m, -1, k[4].1);
    assert(targets_settled_from(k, 4));
    lemma_absent_between(m, -1, k[3].1);
    assert(targets_settled_from(k, 3));
    lemma_absent_between(m, -1, k[2].1);
    assert(targets_settled_from(k, 2));
    lemma_absent_between(m, -1, k[1].1);
    assert(targets_settled_from(k, 1));
    lemma_absent_between(m, -1, k[0].1);
    assert(targets_settled_from(k, 0));
}

/// The characters of the curated replacements are settled.
proof fn lemma_curated_targets_settled(c: char)
    ensures
        curated_variant(c) matches Some(t) ==> forall|j: int| 0 <= j < t.len() ==> settled(#[trigger] t[j]),
{
    lemma_measured_keys_ascend();
    let m = MEASURED_VARIANTS@;
    lemma_absent_between(m, -1, 'C');
    assert(settled('C'));
    lemma_absent_between(m, -1, 'I');
    assert(settled('I'));
    lemma_absent_between(m, -1, 'V');
    assert(settled('V'));
    lemma_absent_between(m, -1, 'X');
    assert(settled('X'));
    lemma_absent_between(m, -1, 'i');
    assert(settled('i'));
    lemma_absent_between(m, -1, 'v');
    assert(settled('v'));
    lemma_absent_between(m, -1, 'x');
    assert(settled('x'));
    lemma_absent_between(m, -1, '°');
    assert(settled('°'));
    lemma_absent_between(m, -1, 'え');
    assert(settled('え'));
    lemma_absent_between(m, -1, 'イ');
    assert(settled('イ'));
    lemma_absent_between(m, 60, '査');
    assert(settled('査'));
    lemma_absent_between(m, 66, '況');
    assert(settled('況'));
    if curated_variant(c) is Some {
        let t = curated_variant(c)->0;
        assert forall|j: int| 0 <= j < t.len() implies settled(#[trigger] t[j]) by {
            assert(t[j] == 'C' || t[j] == 'I' || t[j] == 'V' || t[j] == 'X' || t[j] == 'i' || t[j] == 'v' || t[j] == 'x' || t[j] == '°' || t[j] == 'え' || t[j] == 'イ' || t[j] == '査' || t[j] == '況');
        }
    }
}


/// Everything a lookup variant replaces a character with is settled.
proof fn lemma_lookup_targets_settled(c: char)
    ensures
        lookup_variant(c) matches Some(t) ==> forall|j: int| 0 <= j < t.len() ==> settled(#[trigger] t[j]),
{
    lemma_measured_targets_settled();
    lemma_curated_targets_settled(c);
    lemma_pair_lookup_some(MEASURED_VARIANTS@, c);
    match pair_lookup(MEASURED_VARIANTS@, c) {
        Some(m) => {
            let i = choose|i: int|
                0 <= i < MEASURED_VARIANTS@.len() && MEASURED_VARIANTS@[i].0 == c && MEASURED_VARIANTS@[i].1
                    == m;
            lemma_targets_settled(MEASURED_VARIANTS@, 0, i);
            let t = seq![m];
            assert forall|j: int| 0 <= j < t.len() implies settled(#[trigger] t[j]) by {
                assert(t[j] == m);
            }
        },
        None => {},
    }
}

/// The voiced form a voiced mark gives is settled.
proof fn lemma_voiced_settled(x: char)
    ensures
        pair_lookup(HIRAGANA_VOICED@, x) matches Some(v) ==> settled(v),
        pair_lookup(KATAKANA_VOICED@, x) matches Some(v) ==> settled(v),
{
    lemma_voiced_targets_settled();
    lemma_pair_lookup_some(HIRAGANA_VOICED@, x);
    lemma_pair_lookup_some(KATAKANA_VOICED@, x);
    if pair_lookup(HIRAGANA_VOICED@, x) is Some {
        let v = pair_lookup(HIRAGANA_VOICED@, x)->0;
        let i = choose|i: int|
            0 <= i < HIRAGANA_VOICED@.len() && HIRAGANA_VOICED@[i].0 == x && HIRAGANA_VOICED@[i].1 == v;
        lemma_targets_settled(HIRAGANA_VOICED@, 0, i);
    }
    if pair_lookup(KATAKANA_VOICED@, x) is Some {
        let v = pair_lookup(KATAKANA_VOICED@, x)->0;
        let i = choose|i: int|
            0 <= i < KATAKANA_VOICED@.len() && KATAKANA_VOICED@[i].0 == x && KATAKANA_VOICED@[i].1 == v;
        lemma_targets_settled(KATAKANA_VOICED@, 0, i);
    }
}

/// Every character the fold emits is settled or an iteration mark it left
/// alone.
proof fn lemma_fold_output(s: Seq<char>)
    ensures
        forall|j: int|
            0 <= j < fold_spec(s).len() ==> settled(#[trigger] fold_spec(s)[j]) || is_iteration_mark(
                fold_spec(s)[j],
            ),
    decreases s.len(),
{
    if s.len() > 0 {
        let done = fold_spec(s.drop_last());
        lemma_fold_output(s.drop_last());
        let c = s.last();
        let st = fold_step(done, c);
        lemma_lookup_targets_settled(c);
        if done.len() > 0 {
            lemma_voiced_settled(done.last());
            assert(settled(done[done.len() - 1]) || is_iteration_mark(done[done.len() - 1]));
        }
        assert forall|j: int| 0 <= j < st.len() implies settled(#[trigger] st[j]) || is_iteration_mark(st[j]) by {
            if !is_iteration_mark(c) {
                if lookup_variant(c) is None {
                    assert(st[j] == c);
                }
            }
        }
        let f = fold_spec(s);
        assert(f == done + st);
        assert forall|j: int| 0 <= j < f.len() implies settled(#[trigger] f[j]) || is_iteration_mark(f[j]) by {
            if j < done.len() {
                assert(f[j] == done[j]);
            } else {
                assert(f[j] == st[j - done.len()]);
            }
        }
    }
}

/// A settled character comes out of the fold unchanged, whatever precedes it.
proof fn lemma_settled_step(o: Seq<char>, x: char)
    requires
        settled(x),
    ensures
        fold_step(o, x) == seq![x],
{
}

/// Settled characters appended to a fixed point of the fold keep it one.
proof fn lemma_fold_extend(o: Seq<char>, u: Seq<char>)
    requires
        fold_spec(o) == o,
        forall|j: int| 0 <= j < u.len() ==> settled(#[trigger] u[j]),
    ensures
        fold_spec(o + u) == o + u,
    decreases u.len(),
{
    if u.len() == 0 {
        assert(o + u =~= o);
    } else {
        let v = u.drop_last();
        assert forall|j: int| 0 <= j < v.len() implies settled(#[trigger] v[j]) by {
            assert(v[j] == u[j]);
        }
        lemma_fold_extend(o, v);
        assert((o + u).drop_last() =~= o + v);
        assert((o + u).last() == u.last());
        assert(settled(u[u.len() - 1]));
        lemma_settled_step(o + v, u.last());
        assert(o + v + seq![u.last()] =~= o + u);
    }
}

/// The lookup-variant fold is idempotent: folding a folded text changes
/// nothing, since every character it emits is settled or an iteration mark
/// it had to leave alone.
pub proof fn law_fold_idempotent(s: Seq<char>)
    ensures
        fold_spec(fold_spec(s)) == fold_spec(s),
    decreases s.len(),
{
    if s.len() > 0 {
        let o = fold_spec(s.drop_last());
        law_fold_idempotent(s.drop_last());
        lemma_fold_output(s.drop_last());
        let c = s.last();
        let t = fold_step(o, c);
        assert(fold_spec(s) == o + t);
        lemma_lookup_targets_settled(c);
        if o.len() > 0 {
            lemma_voiced_settled(o.last());
            assert(settled(o[o.len() - 1]) || is_iteration_mark(o[o.len() - 1]));
        }
        if is_iteration_mark(c) && t == seq![c] {
            assert(o.push(c) =~= o + t);
            assert(o.push(c).drop_last() =~= o);
            assert(fold_spec(o.push(c)) == fold_spec(o) + fold_step(fold_spec(o), c));
        } else {
            assert forall|j: int| 0 <= j < t.len() implies settled(#[trigger] t[j]) by {
                if !is_iteration_mark(c) {
                    if lookup_variant(c) is None {
                        assert(t[j] == c);
                    }
                }
            }
            lemma_fold_extend(o, t);
        }
    }
}

/// The measured table of the lookup-variant fold: its variants ascend
/// strictly (so none appears twice), each variant folds to its canonical,
/// and no canonical is a variant or is changed by the fold.
pub proof fn law_measured_table(i: int)
    requires
        0 <= i < MEASURED_VARIANTS@.len(),
    ensures
        MEASURED_VARIANTS@.len() == 165,
        keys_ascend_from(MEASURED_VARIANTS@, 0),
        fold_spec(seq![MEASURED_VARIANTS@[i].0]) == seq![MEASURED_VARIANTS@[i].1],
        pair_lookup(MEASURED_VARIANTS@, MEASURED_VARIANTS@[i].1) is None,
        fold_spec(seq![MEASURED_VARIANTS@[i].1]) == seq![MEASURED_VARIANTS@[i].1],
{
    let t = MEASURED_VARIANTS@;
    lemma_measured_keys_ascend();
    lemma_measured_targets_settled();
    lemma_targets_settled(t, 0, i);
    assert(crate::kana_rules::keys_distinct(t)) by {
        assert forall|a: int, b: int| 0 <= a < b < t.len() implies t[a].0 != t[b].0 by {
            lemma_ascend_orders(t, 0, a, b);
        }
    }
    lemma_pair_lookup_row(t, i);
    let k = t[i].0;
    let c = t[i].1;
    // No variant is an iteration mark: the marks sort before the first key.
    lemma_absent_between(t, -1, 'ゝ');
    lemma_absent_between(t, -1, 'ゞ');
    lemma_absent_between(t, -1, 'ヽ');
    lemma_absent_between(t, -1, 'ヾ');
    assert(!is_iteration_mark(k));
    assert(fold_spec(Seq::<char>::empty()) == Seq::<char>::empty());
    assert(seq![k].last() == k);
    assert(seq![c].last() == c);
    assert(seq![k].drop_last() =~= Seq::<char>::empty());
    assert(fold_spec(seq![k]) =~= fold_step(Seq::<char>::empty(), k));
    assert(seq![c].drop_last() =~= Seq::<char>::empty());
    assert(fold_spec(seq![c]) =~= fold_step(Seq::<char>::empty(), c));
}

/// Widening maps each vertical punctuation form back to the character it
/// was made from, and no vertical form or its source is a half-width kana.
proof fn lemma_widen_vertical(c: char)
    ensures
        widen_char(vertical_punctuation_of(c)) == widen_char(c),
        pair_lookup(HALFWIDTH_VOICED@, vertical_punctuation_of(c)) == pair_lookup(HALFWIDTH_VOICED@, c),
        pair_lookup(HALFWIDTH_SEMI_VOICED@, vertical_punctuation_of(c)) == pair_lookup(
            HALFWIDTH_SEMI_VOICED@,
            c,
        ),
        vertical_punctuation_of(c) == '\u{FF9E}' <==> c == '\u{FF9E}',
        vertical_punctuation_of(c) == '\u{FF9F}' <==> c == '\u{FF9F}',
{
    if c == '?' || c == '…' || c == '‥' {
        lemma_not_halfwidth('?');
        lemma_not_halfwidth('…');
        lemma_not_halfwidth('‥');
        lemma_not_halfwidth('？');
        lemma_not_halfwidth('︙');
        lemma_not_halfwidth('︰');
    }
}

/// The punctuation that vertical text changes, and its vertical forms, are
/// not half-width kana.
proof fn lemma_not_halfwidth(c: char)
    requires
        c == '?' || c == '…' || c == '‥' || c == '？' || c == '︙' || c == '︰',
    ensures
        pair_lookup(HALFWIDTH_KANA@, c) is None,
        pair_lookup(HALFWIDTH_VOICED@, c) is None,
        pair_lookup(HALFWIDTH_SEMI_VOICED@, c) is None,
{
    lemma_pair_lookup_some(HALFWIDTH_KANA@, c);
    lemma_pair_lookup_some(HALFWIDTH_VOICED@, c);
    lemma_pair_lookup_some(HALFWIDTH_SEMI_VOICED@, c);
    assert forall|i: int| 0 <= i < HALFWIDTH_KANA@.len() implies HALFWIDTH_KANA@[i].0 != c by {
        assert(0xFF61 <= HALFWIDTH_KANA@[i].0 as u32);
    }
    assert forall|i: int| 0 <= i < HALFWIDTH_VOICED@.len() implies HALFWIDTH_VOICED@[i].0 != c by {
        assert(0xFF61 <= HALFWIDTH_VOICED@[i].0 as u32);
    }
    assert forall|i: int| 0 <= i < HALFWIDTH_SEMI_VOICED@.len() implies HALFWIDTH_SEMI_VOICED@[i].0 != c by {
        assert(0xFF61 <= HALFWIDTH_SEMI_VOICED@[i].0 as u32);
    }
}

/// Width conversion gives the same text with or without the vertical
/// punctuation forms.
proof fn lemma_width_vertical(s: Seq<char>)
    ensures
        convert_width_spec(s.map_values(|c: char| vertical_punctuation_of(c))) == convert_width_spec(s),
    decreases s.len(),
{
    let m = s.map_values(|c: char| vertical_punctuation_of(c));
    if s.len() > 0 {
        lemma_widen_vertical(s[0]);
        assert(m[0] == vertical_punctuation_of(s[0]));
        if s.len() >= 2 {
            lemma_widen_vertical(s[1]);
            assert(m[1] == vertical_punctuation_of(s[1]));
            lemma_width_vertical(s.skip(2));
            assert(m.skip(2) =~= s.skip(2).map_values(|c: char| vertical_punctuation_of(c)));
        }
        lemma_width_vertical(s.skip(1));
        assert(m.skip(1) =~= s.skip(1).map_values(|c: char| vertical_punctuation_of(c)));
    }
}

/// Vertical punctuation is safe for lookup: it keeps the length, and
/// normalising the vertical text gives what normalising the source gives,
/// since widening folds `？` `︙` `︰` back to `?` `…` `‥`.
pub proof fn law_vertical_punctuation_normalizes_away(s: Seq<char>)
    ensures
        s.map_values(|c: char| vertical_punctuation_of(c)).len() == s.len(),
        normalize_spec(s.map_values(|c: char| vertical_punctuation_of(c))) == normalize_spec(s),
{
    lemma_width_vertical(s);
}

/// A half-width kana followed by the half-width voiced mark (U+FF9E) widens
/// to its voiced full-width kana, and one followed by the half-width
/// semi-voiced mark (U+FF9F) to its semi-voiced kana: the mark is composed,
/// never left behind.
pub proof fn law_halfwidth_marks_compose(i: int)
    ensures
        0 <= i < HALFWIDTH_VOICED@.len() ==> convert_width_spec(seq![HALFWIDTH_VOICED@[i].0, '\u{FF9E}'])
            == seq![HALFWIDTH_VOICED@[i].1],
        0 <= i < HALFWIDTH_SEMI_VOICED@.len() ==> convert_width_spec(
            seq![HALFWIDTH_SEMI_VOICED@[i].0, '\u{FF9F}'],
        ) == seq![HALFWIDTH_SEMI_VOICED@[i].1],
{
    let v = HALFWIDTH_VOICED@;
    let sv = HALFWIDTH_SEMI_VOICED@;
    if 0 <= i < v.len() {
        assert(crate::kana_rules::keys_distinct(v));
        lemma_pair_lookup_row(v, i);
        let s = seq![v[i].0, '\u{FF9E}'];
        assert(s.skip(2) =~= Seq::<char>::empty());
        assert(s[0] == v[i].0 && s[1] == '\u{FF9E}' && s.len() == 2);
        assert(pair_lookup(v, s[0]) == Some(v[i].1));
        assert(convert_width_spec(s) == seq![v[i].1] + convert_width_spec(s.skip(2)));
        assert(convert_width_spec(Seq::<char>::empty()) == Seq::<char>::empty());
        assert(convert_width_spec(s) =~= seq![v[i].1]);
    }
    if 0 <= i < sv.len() {
        assert(crate::kana_rules::keys_distinct(sv));
        lemma_pair_lookup_row(sv, i);
        let s = seq![sv[i].0, '\u{FF9F}'];
        assert(s.skip(2) =~= Seq::<char>::empty());
        assert(convert_width_spec(s) =~= seq![sv[i].1]);
    }
}

} // verus!
