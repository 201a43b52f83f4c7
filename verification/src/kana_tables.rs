//! The character tables the text normalisers read: half-width kana, voiced
//! kana, the lookup-variant fold and the pre-reform kana orthography and
//! sound-change rows. Each table is a list of `(from, to)` pairs looked up by
//! its first matching row.
use vstd::prelude::*;

verus! {

/// The first row of `t` whose key is `k`, by its value.
pub open spec fn pair_lookup<V>(t: Seq<(char, V)>, k: char) -> Option<V>
    decreases t.len(),
{
    if t.len() == 0 {
        None
    } else if t[0].0 == k {
        Some(t[0].1)
    } else {
        pair_lookup(t.drop_first(), k)
    }
}

/// A key with a row in `t` maps to that row's value when the keys are unique.
pub proof fn lemma_pair_lookup_row<V>(t: Seq<(char, V)>, i: int)
    requires
        0 <= i < t.len(),
        forall|a: int, b: int| 0 <= a < b < t.len() ==> t[a].0 != t[b].0,
    ensures
        pair_lookup(t, t[i].0) == Some(t[i].1),
    decreases i,
{
    if i > 0 {
        let u = t.drop_first();
        assert forall|a: int, b: int| 0 <= a < b < u.len() implies u[a].0 != u[b].0 by {
            assert(u[a] == t[a + 1] && u[b] == t[b + 1]);
        }
        assert(t[0].0 != t[i].0);
        lemma_pair_lookup_row(u, i - 1);
    }
}

/// `pair_lookup` finds something exactly when some row has the key.
pub proof fn lemma_pair_lookup_some<V>(t: Seq<(char, V)>, k: char)
    ensures
        pair_lookup(t, k) is Some <==> exists|i: int| 0 <= i < t.len() && t[i].0 == k,
        pair_lookup(t, k) matches Some(v) ==> exists|i: int| 0 <= i < t.len() && t[i].0 == k && t[i].1 == v,
    decreases t.len(),
{
    if t.len() > 0 {
        let u = t.drop_first();
        lemma_pair_lookup_some(u, k);
        if t[0].0 != k {
            if exists|i: int| 0 <= i < t.len() && t[i].0 == k {
                let i = choose|i: int| 0 <= i < t.len() && t[i].0 == k;
                assert(u[i - 1] == t[i]);
            }
            if pair_lookup(u, k) is Some {
                let i = choose|i: int| 0 <= i < u.len() && u[i].0 == k && u[i].1 == pair_lookup(u, k)->0;
                assert(t[i + 1] == u[i]);
            }
        }
    }
}

/// A copy of the rows `t`.
pub fn copy_pairs(t: &[(char, char)]) -> (r: Vec<(char, char)>)
    ensures
        r@ == t@,
{
    let mut r: Vec<(char, char)> = Vec::new();
    let mut i: usize = 0;
    while i < t.len()
        invariant
            i <= t.len(),
            r@ == t@.take(i as int),
        decreases t.len() - i,
    {
        r.push(t[i]);
        proof {
            assert(t@.take(i + 1) =~= t@.take(i as int).push(t@[i as int]));
        }
        i += 1;
    }
    proof {
        assert(t@.take(t.len() as int) =~= t@);
    }
    r
}

/// The value of the first row of `t` keyed `k`.
pub fn lookup_pair(t: &[(char, char)], k: char) -> (r: Option<char>)
    ensures
        r == pair_lookup(t@, k),
{
    let mut i: usize = 0;
    proof {
        assert(t@.skip(0) =~= t@);
    }
    while i < t.len()
        invariant
            i <= t.len(),
            pair_lookup(t@, k) == pair_lookup(t@.skip(i as int), k),
        decreases t.len() - i,
    {
        let (a, b) = t[i];
        proof {
            assert(t@.skip(i as int).drop_first() =~= t@.skip(i + 1));
        }
        if a == k {
            return Some(b);
        }
        i += 1;
    }
    None
}

/// Half-width kana and punctuation and their full-width forms.
pub const HALFWIDTH_KANA: [(char, char); 61] = [
    ('｡', '。'),
    ('｢', '「'),
    ('｣', '」'),
    ('､', '、'),
    ('･', '・'),
    ('ｦ', 'ヲ'),
    ('ｧ', 'ァ'),
    ('ｨ', 'ィ'),
    ('ｩ', 'ゥ'),
    ('ｪ', 'ェ'),
    ('ｫ', 'ォ'),
    ('ｬ', 'ャ'),
    ('ｭ', 'ュ'),
    ('ｮ', 'ョ'),
    ('ｯ', 'ッ'),
    ('ｰ', 'ー'),
    ('ｱ', 'ア'),
    ('ｲ', 'イ'),
    ('ｳ', 'ウ'),
    ('ｴ', 'エ'),
    ('ｵ', 'オ'),
    ('ｶ', 'カ'),
    ('ｷ', 'キ'),
    ('ｸ', 'ク'),
    ('ｹ', 'ケ'),
    ('ｺ', 'コ'),
    ('ｻ', 'サ'),
    ('ｼ', 'シ'),
    ('ｽ', 'ス'),
    ('ｾ', 'セ'),
    ('ｿ', 'ソ'),
    ('ﾀ', 'タ'),
    ('ﾁ', 'チ'),
    ('ﾂ', 'ツ'),
    ('ﾃ', 'テ'),
    ('ﾄ', 'ト'),
    ('ﾅ', 'ナ'),
    ('ﾆ', 'ニ'),
    ('ﾇ', 'ヌ'),
    ('ﾈ', 'ネ'),
    ('ﾉ', 'ノ'),
    ('ﾊ', 'ハ'),
    ('ﾋ', 'ヒ'),
    ('ﾌ', 'フ'),
    ('ﾍ', 'ヘ'),
    ('ﾎ', 'ホ'),
    ('ﾏ', 'マ'),
    ('ﾐ', 'ミ'),
    ('ﾑ', 'ム'),
    ('ﾒ', 'メ'),
    ('ﾓ', 'モ'),
    ('ﾔ', 'ヤ'),
    ('ﾕ', 'ユ'),
    ('ﾖ', 'ヨ'),
    ('ﾗ', 'ラ'),
    ('ﾘ', 'リ'),
    ('ﾙ', 'ル'),
    ('ﾚ', 'レ'),
    ('ﾛ', 'ロ'),
    ('ﾜ', 'ワ'),
    ('ﾝ', 'ン'),
];

/// Half-width kana that take a following half-width dakuten (ﾞ), and the voiced full-width kana.
pub const HALFWIDTH_VOICED: [(char, char); 21] = [
    ('ｶ', 'ガ'),
    ('ｷ', 'ギ'),
    ('ｸ', 'グ'),
    ('ｹ', 'ゲ'),
    ('ｺ', 'ゴ'),
    ('ｻ', 'ザ'),
    ('ｼ', 'ジ'),
    ('ｽ', 'ズ'),
    ('ｾ', 'ゼ'),
    ('ｿ', 'ゾ'),
    ('ﾀ', 'ダ'),
    ('ﾁ', 'ヂ'),
    ('ﾂ', 'ヅ'),
    ('ﾃ', 'デ'),
    ('ﾄ', 'ド'),
    ('ﾊ', 'バ'),
    ('ﾋ', 'ビ'),
    ('ﾌ', 'ブ'),
    ('ﾍ', 'ベ'),
    ('ﾎ', 'ボ'),
    ('ｳ', 'ヴ'),
];

/// Half-width kana that take a following half-width handakuten (ﾟ), and the full-width result.
pub const HALFWIDTH_SEMI_VOICED: [(char, char); 5] = [
    ('ﾊ', 'パ'),
    ('ﾋ', 'ピ'),
    ('ﾌ', 'プ'),
    ('ﾍ', 'ペ'),
    ('ﾎ', 'ポ'),
];

/// Hiragana and their voiced counterparts, for the iteration mark ゞ.
pub const HIRAGANA_VOICED: [(char, char); 21] = [
    ('か', 'が'),
    ('き', 'ぎ'),
    ('く', 'ぐ'),
    ('け', 'げ'),
    ('こ', 'ご'),
    ('さ', 'ざ'),
    ('し', 'じ'),
    ('す', 'ず'),
    ('せ', 'ぜ'),
    ('そ', 'ぞ'),
    ('た', 'だ'),
    ('ち', 'ぢ'),
    ('つ', 'づ'),
    ('て', 'で'),
    ('と', 'ど'),
    ('は', 'ば'),
    ('ひ', 'び'),
    ('ふ', 'ぶ'),
    ('へ', 'べ'),
    ('ほ', 'ぼ'),
    ('う', 'ゔ'),
];

/// Katakana and their voiced counterparts, for the iteration mark ヾ.
pub const KATAKANA_VOICED: [(char, char); 21] = [
    ('カ', 'ガ'),
    ('キ', 'ギ'),
    ('ク', 'グ'),
    ('ケ', 'ゲ'),
    ('コ', 'ゴ'),
    ('サ', 'ザ'),
    ('シ', 'ジ'),
    ('ス', 'ズ'),
    ('セ', 'ゼ'),
    ('ソ', 'ゾ'),
    ('タ', 'ダ'),
    ('チ', 'ヂ'),
    ('ツ', 'ヅ'),
    ('テ', 'デ'),
    ('ト', 'ド'),
    ('ハ', 'バ'),
    ('ヒ', 'ビ'),
    ('フ', 'ブ'),
    ('ヘ', 'ベ'),
    ('ホ', 'ボ'),
    ('ウ', 'ヴ'),
];

/// Unihan variant forms that real Japanese text uses, folded onto the form
/// the shipped dictionary carries (variant -> canonical), in code-point order
/// of the variant. A pair ships only when its variant occurs in real text and
/// its canonical is at least as frequent; no canonical is itself a variant, so
/// one fold pass reaches the terminal form.
pub const MEASURED_VARIANTS: [(char, char); 165] = [
    ('㕞', '刷'),
    ('㘅', '啣'),
    ('㝵', '碍'),
    ('䖟', '蝱'),
    ('䙝', '褻'),
    ('䬒', '颼'),
    ('䯻', '髻'),
    ('䰗', '鬮'),
    ('乾', '干'),
    ('亻', '人'),
    ('來', '来'),
    ('俠', '侠'),
    ('册', '冊'),
    ('冩', '写'),
    ('冫', '氷'),
    ('准', '準'),
    ('凉', '涼'),
    ('凴', '憑'),
    ('凾', '函'),
    ('刋', '刊'),
    ('剝', '剥'),
    ('劒', '劍'),
    ('勹', '包'),
    ('匳', '奩'),
    ('匵', '櫝'),
    ('卭', '卬'),
    ('厶', '某'),
    ('后', '後'),
    ('噐', '器'),
    ('噓', '嘘'),
    ('嚮', '向'),
    ('囑', '嘱'),
    ('囘', '回'),
    ('國', '国'),
    ('堭', '隍'),
    ('壽', '寿'),
    ('娬', '嫵'),
    ('學', '学'),
    ('寫', '写'),
    ('寶', '宝'),
    ('將', '将'),
    ('尸', '屍'),
    ('屆', '届'),
    ('屬', '属'),
    ('峽', '峡'),
    ('巤', '鬣'),
    ('帋', '紙'),
    ('帒', '袋'),
    ('并', '併'),
    ('彌', '弥'),
    ('悋', '吝'),
    ('慙', '慚'),
    ('懜', '懵'),
    ('戀', '恋'),
    ('挾', '挟'),
    ('捬', '撫'),
    ('摑', '掴'),
    ('无', '無'),
    ('晝', '昼'),
    ('會', '会'),
    ('朙', '明'),
    ('栖', '棲'),
    ('樓', '楼'),
    ('樷', '叢'),
    ('樸', '朴'),
    ('欝', '鬱'),
    ('氵', '水'),
    ('涶', '唾'),
    ('渊', '淵'),
    ('潛', '潜'),
    ('濵', '濱'),
    ('灑', '洒'),
    ('灣', '湾'),
    ('烟', '煙'),
    ('燈', '灯'),
    ('犭', '犬'),
    ('甎', '磚'),
    ('甤', '蕤'),
    ('畄', '留'),
    ('畆', '畝'),
    ('當', '当'),
    ('癢', '痒'),
    ('皃', '貌'),
    ('眎', '視'),
    ('瞹', '曖'),
    ('碯', '瑙'),
    ('礟', '礮'),
    ('祿', '禄'),
    ('禀', '稟'),
    ('禦', '御'),
    ('禪', '禅'),
    ('禮', '礼'),
    ('禱', '祷'),
    ('秇', '藝'),
    ('秌', '秋'),
    ('穪', '稱'),
    ('竆', '窮'),
    ('竒', '奇'),
    ('笋', '筍'),
    ('簞', '箪'),
    ('粮', '糧'),
    ('糓', '穀'),
    ('纎', '纖'),
    ('缻', '缶'),
    ('网', '網'),
    ('羮', '羹'),
    ('耻', '恥'),
    ('耼', '聃'),
    ('聲', '声'),
    ('脉', '脈'),
    ('膓', '腸'),
    ('舊', '旧'),
    ('艪', '櫓'),
    ('苢', '苡'),
    ('莖', '茎'),
    ('萬', '万'),
    ('著', '着'),
    ('葢', '蓋'),
    ('薑', '姜'),
    ('蘯', '蕩'),
    ('號', '号'),
    ('蚦', '蚺'),
    ('蜹', '蚋'),
    ('蟬', '蝉'),
    ('蟲', '虫'),
    ('蠶', '蚕'),
    ('襍', '雜'),
    ('覔', '覓'),
    ('觧', '解'),
    ('註', '注'),
    ('誐', '哦'),
    ('賍', '贓'),
    ('賷', '齎'),
    ('軆', '体'),
    ('輓', '挽'),
    ('辶', '辵'),
    ('迯', '逃'),
    ('迹', '跡'),
    ('遉', '偵'),
    ('遙', '遥'),
    ('釐', '厘'),
    ('鍫', '鍬'),
    ('鏁', '鎖'),
    ('閙', '鬧'),
    ('隂', '陰'),
    ('隖', '塢'),
    ('雙', '双'),
    ('頣', '頤'),
    ('颱', '台'),
    ('飃', '飄'),
    ('餘', '余'),
    ('駞', '駝'),
    ('髗', '顱'),
    ('髩', '鬢'),
    ('鬂', '鬢'),
    ('鮧', '鯷'),
    ('鵶', '鴉'),
    ('鶽', '隼'),
    ('鸎', '鶯'),
    ('麄', '粗'),
    ('麴', '麹'),
    ('麸', '麩'),
    ('點', '点'),
    ('齅', '嗅'),
    ('﨑', '崎'),
];

/// The committed pre-reform kana orthography pairs (variant -> modern), in file order.
pub const KANA_VARIANT_PAIRS: [(char, char); 16] = [
    ('ゐ', 'い'),
    ('ゑ', 'え'),
    ('ヰ', 'イ'),
    ('ヱ', 'エ'),
    ('ぢ', 'じ'),
    ('づ', 'ず'),
    ('ヂ', 'ジ'),
    ('ヅ', 'ズ'),
    ('つ', 'っ'),
    ('ツ', 'ッ'),
    ('や', 'ゃ'),
    ('ゆ', 'ゅ'),
    ('よ', 'ょ'),
    ('ヤ', 'ャ'),
    ('ユ', 'ュ'),
    ('ヨ', 'ョ'),
];

/// ハ行転呼 rows of the committed sound-change table.
pub const KANA_HA: [(char, char); 4] = [
    ('は', 'わ'),
    ('ひ', 'い'),
    ('ふ', 'う'),
    ('へ', 'え'),
];

/// アウ -> オウ rows of the committed sound-change table.
pub const KANA_AU: [(char, char); 14] = [
    ('か', 'こ'),
    ('が', 'ご'),
    ('さ', 'そ'),
    ('ざ', 'ぞ'),
    ('た', 'と'),
    ('だ', 'ど'),
    ('な', 'の'),
    ('は', 'ほ'),
    ('ば', 'ぼ'),
    ('ぱ', 'ぽ'),
    ('ゃ', 'ょ'),
    ('や', 'よ'),
    ('ら', 'ろ'),
    ('わ', 'お'),
];

/// エウ -> ヨウ rows of the committed sound-change table: the エ段 kana, the
/// first character of its modern form, and whether a small ょ follows it.
pub const KANA_EU: [(char, char, bool); 13] = [
    ('え', 'よ', false),
    ('け', 'き', true),
    ('げ', 'ぎ', true),
    ('せ', 'し', true),
    ('ぜ', 'じ', true),
    ('て', 'ち', true),
    ('で', 'じ', true),
    ('ね', 'に', true),
    ('へ', 'ひ', true),
    ('べ', 'び', true),
    ('ぺ', 'ぴ', true),
    ('め', 'み', true),
    ('れ', 'り', true),
];

/// Hiragana that compose with a following combining dakuten (U+3099), and the composed kana.
pub const COMBINING_DAKUTEN: [(char, char); 20] = [
    ('か', 'が'),
    ('き', 'ぎ'),
    ('く', 'ぐ'),
    ('け', 'げ'),
    ('こ', 'ご'),
    ('さ', 'ざ'),
    ('し', 'じ'),
    ('す', 'ず'),
    ('せ', 'ぜ'),
    ('そ', 'ぞ'),
    ('た', 'だ'),
    ('ち', 'ぢ'),
    ('つ', 'づ'),
    ('て', 'で'),
    ('と', 'ど'),
    ('は', 'ば'),
    ('ひ', 'び'),
    ('ふ', 'ぶ'),
    ('へ', 'べ'),
    ('ほ', 'ぼ'),
];

/// Hiragana that compose with a following combining handakuten (U+309A), and the composed kana.
pub const COMBINING_HANDAKUTEN: [(char, char); 5] = [
    ('は', 'ぱ'),
    ('ひ', 'ぴ'),
    ('ふ', 'ぷ'),
    ('へ', 'ぺ'),
    ('ほ', 'ぽ'),
];

/// The curated half of the lookup fold: characters the recogniser can emit
/// that dictionaries do not use — Roman numerals (their NFKC spelling), the
/// compatibility form ℃, obsolete kana, and Chinese-only forms emitted in place
/// of the Japanese ones.
pub open spec fn curated_variant(c: char) -> Option<Seq<char>> {
    match c {
        'Ⅰ' => Some(seq!['I']),
        'Ⅱ' => Some(seq!['I', 'I']),
        'Ⅲ' => Some(seq!['I', 'I', 'I']),
        'Ⅳ' => Some(seq!['I', 'V']),
        'Ⅴ' => Some(seq!['V']),
        'Ⅵ' => Some(seq!['V', 'I']),
        'Ⅶ' => Some(seq!['V', 'I', 'I']),
        'Ⅷ' => Some(seq!['V', 'I', 'I', 'I']),
        'Ⅸ' => Some(seq!['I', 'X']),
        'Ⅹ' => Some(seq!['X']),
        'Ⅺ' => Some(seq!['X', 'I']),
        'Ⅻ' => Some(seq!['X', 'I', 'I']),
        'ⅰ' => Some(seq!['i']),
        'ⅱ' => Some(seq!['i', 'i']),
        'ⅲ' => Some(seq!['i', 'i', 'i']),
        'ⅳ' => Some(seq!['i', 'v']),
        'ⅴ' => Some(seq!['v']),
        'ⅵ' => Some(seq!['v', 'i']),
        'ⅶ' => Some(seq!['v', 'i', 'i']),
        'ⅷ' => Some(seq!['v', 'i', 'i', 'i']),
        'ⅸ' => Some(seq!['i', 'x']),
        'ⅹ' => Some(seq!['x']),
        '℃' => Some(seq!['°', 'C']),
        'ゑ' => Some(seq!['え']),
        'ヰ' => Some(seq!['イ']),
        '况' => Some(seq!['況']),
        '查' => Some(seq!['査']),
        _ => None,
    }
}

pub fn curated_variant_of(c: char) -> (r: Option<Vec<char>>)
    ensures
        match r {
            Some(v) => curated_variant(c) == Some(v@),
            None => curated_variant(c) is None,
        },
{
    match c {
        'Ⅰ' => Some(vec!['I']),
        'Ⅱ' => Some(vec!['I', 'I']),
        'Ⅲ' => Some(vec!['I', 'I', 'I']),
        'Ⅳ' => Some(vec!['I', 'V']),
        'Ⅴ' => Some(vec!['V']),
        'Ⅵ' => Some(vec!['V', 'I']),
        'Ⅶ' => Some(vec!['V', 'I', 'I']),
        'Ⅷ' => Some(vec!['V', 'I', 'I', 'I']),
        'Ⅸ' => Some(vec!['I', 'X']),
        'Ⅹ' => Some(vec!['X']),
        'Ⅺ' => Some(vec!['X', 'I']),
        'Ⅻ' => Some(vec!['X', 'I', 'I']),
        'ⅰ' => Some(vec!['i']),
        'ⅱ' => Some(vec!['i', 'i']),
        'ⅲ' => Some(vec!['i', 'i', 'i']),
        'ⅳ' => Some(vec!['i', 'v']),
        'ⅴ' => Some(vec!['v']),
        'ⅵ' => Some(vec!['v', 'i']),
        'ⅶ' => Some(vec!['v', 'i', 'i']),
        'ⅷ' => Some(vec!['v', 'i', 'i', 'i']),
        'ⅸ' => Some(vec!['i', 'x']),
        'ⅹ' => Some(vec!['x']),
        '℃' => Some(vec!['°', 'C']),
        'ゑ' => Some(vec!['え']),
        'ヰ' => Some(vec!['イ']),
        '况' => Some(vec!['況']),
        '查' => Some(vec!['査']),
        _ => None,
    }
}

/// The lookup-variant fold of one character: a measured Unihan variant folds
/// onto its canonical, a curated character onto its replacement text.
pub open spec fn lookup_variant(c: char) -> Option<Seq<char>> {
    match pair_lookup(MEASURED_VARIANTS@, c) {
        Some(m) => Some(seq![m]),
        None => curated_variant(c),
    }
}

pub fn lookup_variant_of(c: char) -> (r: Option<Vec<char>>)
    ensures
        match r {
            Some(v) => lookup_variant(c) == Some(v@),
            None => lookup_variant(c) is None,
        },
{
    match lookup_pair(&MEASURED_VARIANTS, c) {
        Some(m) => {
            let v = vec![m];
            proof {
                assert(v@ =~= seq![m]);
            }
            Some(v)
        },
        None => curated_variant_of(c),
    }
}

} // verus!
