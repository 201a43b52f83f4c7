//! Bank files of a Yomitan dictionary archive: which bank a file name
//! represents, its numeric suffix, and the natural order in which the entry
//! banks are imported (`term_bank_2` before `term_bank_10`).
use vstd::prelude::*;
use crate::text::{chars_of, copy_range, ends_with_chars, has_prefix, has_suffix, starts_with_chars};

verus! {

/// The entry-bank kinds understood by the importer.
#[derive(Debug, Clone, Copy, PartialEq, Eq, Structural)]
pub enum BankType {
    /// A term bank (`term_bank_N.json`).
    Term,
    /// A kanji bank (`kanji_bank_N.json`).
    Kanji,
    /// A term metadata bank (`term_meta_bank_N.json`).
    TermMeta,
}

/// `name` starts with `prefix` and ends with `.json`.
pub open spec fn bank_named(name: Seq<char>, prefix: Seq<char>) -> bool {
    has_prefix(name, prefix) && has_suffix(name, ".json"@)
}

/// Whether `name` starts with `prefix` and ends with `.json`.
pub fn is_bank_named(name: &str, prefix: &str) -> (r: bool)
    ensures
        r == bank_named(name@, prefix@),
{
    let n = chars_of(name);
    let p = chars_of(prefix);
    let json = chars_of(".json");
    starts_with_chars(&n, &p) && ends_with_chars(&n, &json)
}

/// The entry-bank kind a file name represents, if any.
pub open spec fn bank_type_of(name: Seq<char>) -> Option<BankType> {
    if bank_named(name, "term_bank_"@) {
        Some(BankType::Term)
    } else if bank_named(name, "kanji_bank_"@) {
        Some(BankType::Kanji)
    } else if bank_named(name, "term_meta_bank_"@) {
        Some(BankType::TermMeta)
    } else {
        None
    }
}

/// Classify an entry-bank file name. The `.json` suffix and the bank prefix
/// are both required; tag banks are not entry banks.
pub fn classify_bank(name: &str) -> (r: Option<BankType>)
    ensures
        r == bank_type_of(name@),
{
    if is_bank_named(name, "term_bank_") {
        Some(BankType::Term)
    } else if is_bank_named(name, "kanji_bank_") {
        Some(BankType::Kanji)
    } else if is_bank_named(name, "term_meta_bank_") {
        Some(BankType::TermMeta)
    } else {
        None
    }
}

/// Whether `name` is a tag bank (`tag_bank_N.json`).
pub fn is_tag_bank(name: &str) -> (r: bool)
    ensures
        r == bank_named(name@, "tag_bank_"@),
{
    is_bank_named(name, "tag_bank_")
}

/// The part of `s` after its last `_` (all of `s` when it has none).
pub open spec fn after_last_underscore(s: Seq<char>) -> Seq<char>
    decreases s.len(),
{
    if s.len() == 0 {
        s
    } else if s.last() == '_' {
        Seq::empty()
    } else {
        after_last_underscore(s.drop_last()).push(s.last())
    }
}

/// An ASCII decimal digit.
pub open spec fn is_digit(c: char) -> bool {
    0x30 <= (c as u32) && (c as u32) <= 0x39
}

/// The value of a string of decimal digits.
pub open spec fn decimal_value(s: Seq<char>) -> int
    decreases s.len(),
{
    if s.len() == 0 {
        0
    } else {
        decimal_value(s.drop_last()) * 10 + ((s.last() as u32) - 0x30)
    }
}

/// `u64::from_str`: an optional `+`, then one or more decimal digits whose
/// value fits in a `u64`.
pub open spec fn parse_u64(s: Seq<char>) -> Option<u64> {
    let digits = unsigned_digits(s);
    if digits.len() > 0 && all_digits(digits) && decimal_value(digits) <= u64::MAX {
        Some(decimal_value(digits) as u64)
    } else {
        None
    }
}

/// `s` without a leading `+`.
pub open spec fn unsigned_digits(s: Seq<char>) -> Seq<char> {
    if s.len() > 0 && s[0] == '+' {
        s.skip(1)
    } else {
        s
    }
}

/// Every character of `s` is a decimal digit.
pub open spec fn all_digits(s: Seq<char>) -> bool {
    forall|i: int| 0 <= i < s.len() ==> #[trigger] is_digit(s[i])
}

/// The numeric suffix of a bank file name: the name without `.json`, its
/// part after the last `_`, non-empty and a `u64`.
pub open spec fn bank_number_of(name: Seq<char>) -> Option<u64> {
    if !has_suffix(name, ".json"@) {
        None
    } else {
        let suffix = after_last_underscore(name.take(name.len() - ".json"@.len()));
        if suffix.len() == 0 {
            None
        } else {
            parse_u64(suffix)
        }
    }
}

proof fn lemma_decimal_nonneg(s: Seq<char>)
    requires
        forall|i: int| 0 <= i < s.len() ==> #[trigger] is_digit(s[i]),
    ensures
        decimal_value(s) >= 0,
    decreases s.len(),
{
    if s.len() > 0 {
        let t = s.drop_last();
        assert forall|i: int| 0 <= i < t.len() implies #[trigger] is_digit(t[i]) by {
            assert(t[i] == s[i]);
        }
        assert(is_digit(s[s.len() - 1]));
        lemma_decimal_nonneg(t);
    }
}

/// A prefix of a digit string has no greater value.
proof fn lemma_decimal_prefix(s: Seq<char>, k: int)
    requires
        0 <= k <= s.len(),
        forall|i: int| 0 <= i < s.len() ==> #[trigger] is_digit(s[i]),
    ensures
        decimal_value(s.take(k)) <= decimal_value(s),
    decreases s.len(),
{
    if k < s.len() {
        let t = s.drop_last();
        assert forall|i: int| 0 <= i < t.len() implies #[trigger] is_digit(t[i]) by {
            assert(t[i] == s[i]);
        }
        assert(is_digit(s[s.len() - 1]));
        lemma_decimal_prefix(t, k);
        lemma_decimal_nonneg(t);
        assert(t.take(k) =~= s.take(k));
    } else {
        assert(s.take(k) =~= s);
    }
}

/// The value of a string of decimal digits, if it fits in a `u64`.
fn digits_value(d: &Vec<char>) -> (r: Option<u64>)
    requires
        forall|i: int| 0 <= i < d.len() ==> #[trigger] is_digit(d@[i]),
    ensures
        decimal_value(d@) <= u64::MAX ==> r == Some(decimal_value(d@) as u64),
        decimal_value(d@) > u64::MAX ==> r is None,
{
    let mut v: u64 = 0;
    let mut k: usize = 0;
    while k < d.len()
        invariant
            k <= d.len(),
            forall|i: int| 0 <= i < d.len() ==> #[trigger] is_digit(d@[i]),
            v as int == decimal_value(d@.take(k as int)),
        decreases d.len() - k,
    {
        let c = d[k];
        proof {
            assert(is_digit(d@[k as int]));
            assert(d@.take(k + 1).drop_last() =~= d@.take(k as int));
            assert(d@.take(k + 1).last() == c);
        }
        let x: u32 = c as u32;
        let digit: u64 = (x - 0x30) as u64;
        if v > 1844674407370955161 || (v == 1844674407370955161 && digit > 5) {
            proof {
                lemma_decimal_prefix(d@, k + 1);
            }
            return None;
        }
        v = v * 10 + digit;
        k += 1;
    }
    proof {
        assert(d@.take(d.len() as int) =~= d@);
    }
    Some(v)
}

/// `u64::from_str` on characters.
fn parse_u64_chars(s: &Vec<char>) -> (r: Option<u64>)
    ensures
        r == parse_u64(s@),
{
    let start: usize = if s.len() > 0 && s[0] == '+' {
        1
    } else {
        0
    };
    let d = copy_range(s, start, s.len());
    let ghost digits = unsigned_digits(s@);
    proof {
        assert(d@ =~= digits);
    }
    if d.len() == 0 {
        return None;
    }
    let mut i: usize = 0;
    while i < d.len()
        invariant
            i <= d.len(),
            d@ == digits,
            digits == unsigned_digits(s@),
            forall|j: int| 0 <= j < i ==> #[trigger] is_digit(d@[j]),
        decreases d.len() - i,
    {
        let x: u32 = d[i] as u32;
        if !(x >= 0x30 && x <= 0x39) {
            proof {
                assert(!is_digit(digits[i as int]));
                assert(!all_digits(digits));
                assert(parse_u64(s@) is None);
            }
            return None;
        }
        i += 1;
    }
    digits_value(&d)
}

/// The characters of `s` after its last `_`.
fn after_last_underscore_chars(s: &Vec<char>, len: usize) -> (r: Vec<char>)
    requires
        len <= s.len(),
    ensures
        r@ == after_last_underscore(s@.take(len as int)),
    decreases len,
{
    if len == 0 {
        proof {
            assert(s@.take(0) =~= Seq::<char>::empty());
        }
        return Vec::new();
    }
    proof {
        assert(s@.take(len as int).drop_last() =~= s@.take(len - 1));
    }
    if s[len - 1] == '_' {
        Vec::new()
    } else {
        let mut r = after_last_underscore_chars(s, len - 1);
        r.push(s[len - 1]);
        r
    }
}

/// Extract the numeric suffix from a bank file name: `term_bank_12.json`
/// gives `Some(12)`. A missing suffix, a name without `.json` or a suffix
/// that is not a `u64` gives `None`.
pub fn bank_number(name: &str) -> (r: Option<u64>)
    ensures
        r == bank_number_of(name@),
{
    let n = chars_of(name);
    let json = chars_of(".json");
    if !ends_with_chars(&n, &json) {
        return None;
    }
    let suffix = after_last_underscore_chars(&n, n.len() - json.len());
    if suffix.len() == 0 {
        None
    } else {
        parse_u64_chars(&suffix)
    }
}

/// The number a bank sorts by: its suffix, or zero when it has none.
pub open spec fn sort_number(name: Seq<char>) -> u64 {
    match bank_number_of(name) {
        Some(x) => x,
        None => 0,
    }
}

/// Numeric bank suffix for sorting: unknown suffixes sort as zero.
pub fn extract_bank_number(name: &str) -> (r: u64)
    ensures
        r == sort_number(name@),
{
    match bank_number(name) {
        Some(x) => x,
        None => 0,
    }
}

/// Entry `a` of `names` is read before entry `b`: a smaller number, or the
/// same number and an earlier place in the archive.
pub open spec fn read_before(names: Seq<String>, a: int, b: int) -> bool {
    sort_number(names[a]@) < sort_number(names[b]@) || (sort_number(names[a]@) == sort_number(
        names[b]@,
    ) && a < b)
}

/// The entry banks of an archive whose files are `names`, in the order they
/// are imported: every file that is an entry bank exactly once, by numeric
/// suffix, ties kept in archive order.
pub fn bank_plan(names: &Vec<String>) -> (r: Vec<(usize, BankType)>)
    ensures
        forall|k: int|
            0 <= k < r.len() ==> #[trigger] r@[k].0 < names.len() && bank_type_of(names@[r@[k].0 as int]@)
                == Some(r@[k].1),
        forall|i: int|
            0 <= i < names.len() && #[trigger] bank_type_of(names@[i]@) is Some ==> exists|k: int|
                0 <= k < r.len() && r@[k].0 == i,
        forall|k1: int, k2: int|
            0 <= k1 < k2 < r.len() ==> read_before(names@, r@[k1].0 as int, r@[k2].0 as int),
{
    let mut plan: Vec<(usize, BankType)> = Vec::new();
    let mut nums: Vec<u64> = Vec::new();
    let mut i: usize = 0;
    while i < names.len()
        invariant
            i <= names.len(),
            nums.len() == plan.len(),
            forall|k: int| 0 <= k < plan.len() ==> #[trigger] plan@[k].0 < i && bank_type_of(names@[plan@[k].0 as int]@)
                == Some(plan@[k].1) && nums@[k] == sort_number(names@[plan@[k].0 as int]@),
            forall|j: int| 0 <= j < i && #[trigger] bank_type_of(names@[j]@) is Some ==> exists|k: int|
                0 <= k < plan.len() && plan@[k].0 == j,
            forall|k1: int, k2: int|
                0 <= k1 < k2 < plan.len() ==> read_before(names@, plan@[k1].0 as int, plan@[k2].0 as int),
        decreases names.len() - i,
    {
        match classify_bank(names[i].as_str()) {
            Some(kind) => {
                let num = extract_bank_number(names[i].as_str());
                let mut p: usize = 0;
                while p < plan.len() && nums[p] <= num
                    invariant
                        p <= plan.len() == nums.len(),
                        forall|k: int| 0 <= k < p ==> nums@[k] <= num,
                    decreases plan.len() - p,
                {
                    p += 1;
                }
                let ghost plan0 = plan@;
                let ghost nums0 = nums@;
                plan.insert(p, (i, kind));
                nums.insert(p, num);
                proof {
                    assert forall|k: int| 0 <= k < plan.len() implies #[trigger] plan@[k].0 <= i && bank_type_of(
                        names@[plan@[k].0 as int]@,
                    ) == Some(plan@[k].1) && nums@[k] == sort_number(names@[plan@[k].0 as int]@) by {
                        if k < p {
                            assert(plan@[k] == plan0[k] && nums@[k] == nums0[k]);
                        } else if k > p {
                            assert(plan@[k] == plan0[k - 1] && nums@[k] == nums0[k - 1]);
                        }
                    }
                    assert forall|j: int| 0 <= j <= i && #[trigger] bank_type_of(names@[j]@) is Some implies exists|k: int|
                        0 <= k < plan.len() && plan@[k].0 == j by {
                        if j < i {
                            let k0 = choose|k: int| 0 <= k < plan0.len() && plan0[k].0 == j;
                            if k0 < p {
                                assert(plan@[k0].0 == j);
                            } else {
                                assert(plan@[k0 + 1].0 == j);
                            }
                        } else {
                            assert(plan@[p as int].0 == j);
                        }
                    }
                    assert forall|k1: int, k2: int| 0 <= k1 < k2 < plan.len() implies read_before(
                        names@,
                        plan@[k1].0 as int,
                        plan@[k2].0 as int,
                    ) by {
                        let a = if k1 < p { k1 } else if k1 == p { -1 } else { k1 - 1 };
                        let b = if k2 < p { k2 } else if k2 == p { -1 } else { k2 - 1 };
                        if a >= 0 && b >= 0 {
                            assert(plan@[k1] == plan0[a] && plan@[k2] == plan0[b]);
                        } else if k1 == p {
                            assert(plan@[k2] == plan0[b]);
                            assert(nums0[p as int] > num);
                            if b > p {
                                assert(read_before(names@, plan0[p as int].0 as int, plan0[b].0 as int));
                            }
                            assert(nums0[b] > num);
                        } else {
                            assert(plan@[k1] == plan0[a]);
                            assert(nums0[a] <= num);
                        }
                    }
                }
            },
            None => {},
        }
        i += 1;
    }
    plan
}


/// Progress of a dictionary import, reported after each entry bank.
#[derive(Debug, Clone)]
pub struct ImportProgress {
    /// Entries imported so far, over all banks.
    pub entries_imported: usize,
    /// Entry banks fully processed.
    pub banks_done: usize,
    /// Entry banks in the archive.
    pub banks_total: usize,
    /// The bank processed last.
    pub current_file: String,
}

impl ImportProgress {
    /// The progress of an import of `banks_total` entry banks before any of
    /// them.
    pub fn start(banks_total: usize) -> (r: ImportProgress)
        ensures
            r.entries_imported == 0,
            r.banks_done == 0,
            r.banks_total == banks_total,
            r.current_file@ == Seq::<char>::empty(),
    {
        ImportProgress { entries_imported: 0, banks_done: 0, banks_total, current_file: String::new() }
    }

    /// The progress once bank `name` has added `rows` entries.
    pub fn after_bank(&self, rows: usize, name: &str) -> (r: ImportProgress)
        requires
            self.entries_imported + rows <= usize::MAX,
            self.banks_done < usize::MAX,
        ensures
            r.entries_imported == self.entries_imported + rows,
            r.banks_done == self.banks_done + 1,
            r.banks_total == self.banks_total,
            r.current_file@ == name@,
    {
        ImportProgress {
            entries_imported: self.entries_imported + rows,
            banks_done: self.banks_done + 1,
            banks_total: self.banks_total,
            current_file: String::from_str(name),
        }
    }
}

/// The name an imported dictionary is stored under: the title its index
/// declares, else the archive's file stem, else `Imported Dictionary`.
pub fn dictionary_title(file_stem: Option<&str>, declared_title: Option<&str>) -> (r: String)
    ensures
        r@ == match declared_title {
            Some(t) => t@,
            None => match file_stem {
                Some(f) => f@,
                None => "Imported Dictionary"@,
            },
        },
{
    match declared_title {
        Some(t) => String::from_str(t),
        None => match file_stem {
            Some(f) => String::from_str(f),
            None => String::from_str("Imported Dictionary"),
        },
    }
}

/// The priority of a newly imported dictionary: one above the highest
/// stored priority, 0 when no dictionary is stored.
pub fn next_priority(max_priority: Option<i32>) -> (r: i32)
    requires
        max_priority != Some(i32::MAX),
    ensures
        r == match max_priority {
            Some(m) => m + 1,
            None => 0,
        },
{
    match max_priority {
        Some(m) => m + 1,
        None => 0,
    }
}

/// Tag banks are never entry banks: a tag bank's name classifies as none.
pub proof fn law_tag_banks_are_not_entry_banks(name: Seq<char>)
    requires
        bank_named(name, "tag_bank_"@),
    ensures
        bank_type_of(name) is None,
{
    reveal_strlit("tag_bank_");
    reveal_strlit("term_bank_");
    reveal_strlit("kanji_bank_");
    reveal_strlit("term_meta_bank_");
    assert(name.take(9)[1] == 'a');
    if has_prefix(name, "term_bank_"@) {
        assert(name.take(10)[1] == name[1]);
    }
    if has_prefix(name, "term_meta_bank_"@) {
        assert(name.take(15)[1] == name[1]);
    }
    if has_prefix(name, "kanji_bank_"@) {
        assert(name.take(11)[0] == name[0]);
        assert(name.take(9)[0] == name[0]);
    }
}

} // verus!
