//! Integer geometry and character classes of the OCR layout: interval
//! overlap and gap along one axis, the punctuation that vertical text
//! shrinks toward its neighbours, the characters whose boxes are not
//! snapped to ink centroids, and the reading order of detected lines.
use vstd::prelude::*;
use crate::kana_rules::char_in;

verus! {

/// The larger of two integers.
pub open spec fn max_int(a: int, b: int) -> int {
    if a >= b {
        a
    } else {
        b
    }
}

/// The smaller of two integers.
pub open spec fn min_int(a: int, b: int) -> int {
    if a <= b {
        a
    } else {
        b
    }
}

/// Length of the overlap of the intervals `[a1, a2]` and `[b1, b2]`, zero
/// when they are disjoint.
pub fn overlap_len(a1: i32, a2: i32, b1: i32, b2: i32) -> (r: i32)
    requires
        i32::MIN <= min_int(a2 as int, b2 as int) - max_int(a1 as int, b1 as int) <= i32::MAX,
    ensures
        r == max_int(0, min_int(a2 as int, b2 as int) - max_int(a1 as int, b1 as int)),
{
    let hi = if a2 <= b2 {
        a2
    } else {
        b2
    };
    let lo = if a1 >= b1 {
        a1
    } else {
        b1
    };
    let d = hi - lo;
    if d >= 0 {
        d
    } else {
        0
    }
}

/// Length of the gap between the intervals `[a1, a2]` and `[b1, b2]`, zero
/// when they overlap.
pub fn gap_len(a1: i32, a2: i32, b1: i32, b2: i32) -> (r: i32)
    requires
        i32::MIN <= max_int(a1 as int, b1 as int) - min_int(a2 as int, b2 as int) <= i32::MAX,
    ensures
        r == max_int(0, max_int(a1 as int, b1 as int) - min_int(a2 as int, b2 as int)),
{
    let lo = if a1 >= b1 {
        a1
    } else {
        b1
    };
    let hi = if a2 <= b2 {
        a2
    } else {
        b2
    };
    let d = lo - hi;
    if d >= 0 {
        d
    } else {
        0
    }
}

/// Closing marks: in vertical text they shrink onto the next box's start.
pub const VERTICAL_CLOSING: [char; 19] = ['。', '.', '．', '、', ',', '，', ')', '）', '〕', '》', '」', '』', '】', '〙', '〗', '〟', '’', '”', '］'];

/// Opening marks: in vertical text they shrink onto the previous box's end.
pub const VERTICAL_OPENING: [char; 13] = ['(', '（', '〔', '《', '「', '『', '【', '〘', '〖', '〝', '‘', '“', '［'];

/// Small kana, whose ink sits off the em centre.
pub const SNAP_SMALL_KANA: [char; 22] = ['ぁ', 'ぃ', 'ぅ', 'ぇ', 'ぉ', 'っ', 'ゃ', 'ゅ', 'ょ', 'ゎ', 'ァ', 'ィ', 'ゥ', 'ェ', 'ォ', 'ッ', 'ャ', 'ュ', 'ョ', 'ヮ', 'ヵ', 'ヶ'];

/// Punctuation and midline marks whose ink centroid is not the em centre.
pub const SNAP_PUNCTUATION: [char; 56] = ['、', '。', '．', '，', ',', '．', '「', '」', '『', '』', '（', '）', '〔', '〕', '［', '］', '｛', '｝', '〈', '〉', '《', '》', '【', '】', '〘', '〙', '〚', '〛', '\'', '"', '"', '‘', '’', '“', '”', '(', ')', '[', ']', '{', '}', '-', '+', '*', '/', '<', '>', '＜', '＞', '＝', '…', '‥', '︙', '︰', '：', '；'];

/// Whether `ch` is a closing mark of vertical text.
pub fn is_vertical_closing_punct(ch: char) -> (r: bool)
    ensures
        r == VERTICAL_CLOSING@.contains(ch),
{
    char_in(&VERTICAL_CLOSING, ch)
}

/// Whether `ch` is an opening mark of vertical text.
pub fn is_vertical_opening_punct(ch: char) -> (r: bool)
    ensures
        r == VERTICAL_OPENING@.contains(ch),
{
    char_in(&VERTICAL_OPENING, ch)
}

/// Whether `ch` keeps its box when boxes are snapped to ink: small kana,
/// punctuation whose ink centroid is not the em centre, and midline marks.
pub fn is_snap_skipped(ch: char) -> (r: bool)
    ensures
        r == (SNAP_SMALL_KANA@.contains(ch) || SNAP_PUNCTUATION@.contains(ch)),
{
    if char_in(&SNAP_SMALL_KANA, ch) {
        return true;
    }
    char_in(&SNAP_PUNCTUATION, ch)
}

/// A detected line box as the reading order sees it: its axis-aligned frame
/// and whether the line runs vertically.
#[derive(Debug, Clone, Copy, PartialEq, Eq, Structural)]
pub struct LineBox {
    pub x: i32,
    pub y: i32,
    pub w: i32,
    pub h: i32,
    pub vertical: bool,
}

/// The key a line sorts by within its orientation: horizontal lines top to
/// bottom, then left to right; vertical lines by their right edge from
/// right to left, then top to bottom.
pub open spec fn order_key(b: LineBox) -> (int, int) {
    if b.vertical {
        (-(b.x + b.w), b.y as int)
    } else {
        (b.y as int, b.x as int)
    }
}

/// Key `a` sorts strictly before key `b`.
pub open spec fn key_before(a: (int, int), b: (int, int)) -> bool {
    a.0 < b.0 || (a.0 == b.0 && a.1 < b.1)
}

/// Box `i` is read before box `j`: horizontal lines before vertical ones,
/// then by the sort key, then (the sort being stable) by input position.
pub open spec fn reads_before(bs: Seq<LineBox>, i: int, j: int) -> bool {
    ||| (!bs[i].vertical && bs[j].vertical)
    ||| (bs[i].vertical == bs[j].vertical && (key_before(order_key(bs[i]), order_key(bs[j])) || (
    order_key(bs[i]) == order_key(bs[j]) && i < j)))
}

/// How lines are read, in terms of their frames: every horizontal line
/// before every vertical one; horizontal lines top to bottom, and left to
/// right only between lines with the same top edge; vertical lines from the
/// rightmost right edge leftwards, and top to bottom only between lines with
/// the same right edge; lines with the same key in input order.
pub proof fn law_reading_order(bs: Seq<LineBox>, i: int, j: int)
    requires
        0 <= i < bs.len(),
        0 <= j < bs.len(),
        i != j,
    ensures
        !bs[i].vertical && bs[j].vertical ==> reads_before(bs, i, j),
        !bs[i].vertical && !bs[j].vertical && bs[i].y < bs[j].y ==> reads_before(bs, i, j),
        !bs[i].vertical && !bs[j].vertical && bs[i].y == bs[j].y && bs[i].x < bs[j].x ==> reads_before(
            bs,
            i,
            j,
        ),
        bs[i].vertical && bs[j].vertical && bs[i].x + bs[i].w > bs[j].x + bs[j].w ==> reads_before(bs, i, j),
        bs[i].vertical && bs[j].vertical && bs[i].x + bs[i].w == bs[j].x + bs[j].w && bs[i].y < bs[j].y
            ==> reads_before(bs, i, j),
        bs[i].vertical == bs[j].vertical && bs[i].x == bs[j].x && bs[i].y == bs[j].y && bs[i].w == bs[j].w
            && i < j ==> reads_before(bs, i, j),
        reads_before(bs, i, j) ==> !reads_before(bs, j, i),
{
}

/// Right edges of vertical boxes fit in 32 bits.
pub open spec fn right_edges_fit(bs: Seq<LineBox>) -> bool {
    forall|k: int| 0 <= k < bs.len() && #[trigger] bs[k].vertical ==> i32::MIN <= bs[k].x + bs[k].w <= i32::MAX
}

proof fn lemma_reads_before_order(bs: Seq<LineBox>, i: int, j: int, k: int)
    ensures
        !reads_before(bs, i, i),
        i != j ==> (reads_before(bs, i, j) || reads_before(bs, j, i)),
        reads_before(bs, i, j) && reads_before(bs, j, k) ==> reads_before(bs, i, k),
{
}

fn reads_before_exec(boxes: &Vec<LineBox>, i: usize, j: usize) -> (r: bool)
    requires
        i < boxes.len(),
        j < boxes.len(),
        right_edges_fit(boxes@),
    ensures
        r == reads_before(boxes@, i as int, j as int),
{
    let a = boxes[i];
    let b = boxes[j];
    if a.vertical != b.vertical {
        return !a.vertical;
    }
    let (a0, a1, b0, b1): (i64, i64, i64, i64) = if a.vertical {
        (-(a.x as i64 + a.w as i64), a.y as i64, -(b.x as i64 + b.w as i64), b.y as i64)
    } else {
        (a.y as i64, a.x as i64, b.y as i64, b.x as i64)
    };
    a0 < b0 || (a0 == b0 && (a1 < b1 || (a1 == b1 && i < j)))
}

/// The reading order of detected lines, as the input positions of the
/// lines in the order they are read: horizontal lines first, top to bottom
/// and left to right, then vertical lines from the rightmost right edge,
/// top to bottom; lines that tie keep their input order.
pub fn sort_detected_boxes(boxes: &Vec<LineBox>) -> (r: Vec<usize>)
    requires
        right_edges_fit(boxes@),
    ensures
        r.len() == boxes.len(),
        forall|k: int| 0 <= k < r.len() ==> r@[k] < boxes.len(),
        forall|k: usize| k < boxes.len() ==> r@.contains(k),
        forall|a: int, b: int| 0 <= a < b < r.len() ==> reads_before(boxes@, r@[a] as int, r@[b] as int),
        forall|a: int, b: int|
            0 <= a < r.len() && 0 <= b < r.len() && !boxes@[r@[a] as int].vertical && !boxes@[r@[b] as int].vertical
                && boxes@[r@[a] as int].y < boxes@[r@[b] as int].y ==> a < b,
{
    let mut out: Vec<usize> = Vec::new();
    let mut i: usize = 0;
    while i < boxes.len()
        invariant
            i <= boxes.len(),
            right_edges_fit(boxes@),
            out.len() == i,
            forall|k: int| 0 <= k < out.len() ==> out@[k] < i,
            forall|k: usize| k < i ==> out@.contains(k),
            forall|a: int, b: int| 0 <= a < b < out.len() ==> reads_before(boxes@, out@[a] as int, out@[b] as int),
        decreases boxes.len() - i,
    {
        let mut p: usize = 0;
        while p < out.len() && !reads_before_exec(boxes, i, out[p])
            invariant
                p <= out.len(),
                i < boxes.len(),
                right_edges_fit(boxes@),
                forall|k: int| 0 <= k < out.len() ==> out@[k] < i,
                forall|q: int| 0 <= q < p ==> !reads_before(boxes@, i as int, out@[q] as int),
            decreases out.len() - p,
        {
            p += 1;
        }
        let ghost before = out@;
        out.insert(p, i);
        proof {
            assert forall|k: usize| k < i + 1 implies out@.contains(k) by {
                if k < i {
                    assert(before.contains(k));
                    let q = choose|q: int| 0 <= q < before.len() && before[q] == k;
                    if q < p {
                        assert(out@[q] == k);
                    } else {
                        assert(out@[q + 1] == k);
                    }
                } else {
                    assert(out@[p as int] == k);
                }
            }
            assert forall|a: int, b: int| 0 <= a < b < out.len() implies reads_before(
                boxes@,
                out@[a] as int,
                out@[b] as int,
            ) by {
                if b < p {
                    assert(out@[a] == before[a] && out@[b] == before[b]);
                } else if b == p {
                    assert(out@[a] == before[a]);
                    lemma_reads_before_order(boxes@, i as int, before[a] as int, i as int);
                } else if a == p {
                    assert(out@[b] == before[b - 1]);
                    assert(reads_before(boxes@, i as int, before[p as int] as int));
                    if b - 1 > p {
                        lemma_reads_before_order(boxes@, i as int, before[p as int] as int, before[b - 1] as int);
                    }
                } else if a < p {
                    assert(out@[a] == before[a] && out@[b] == before[b - 1]);
                } else {
                    assert(out@[a] == before[a - 1] && out@[b] == before[b - 1]);
                }
            }
        }
        i += 1;
    }
    proof {
        assert forall|a: int, b: int|
            0 <= a < out.len() && 0 <= b < out.len() && !boxes@[out@[a] as int].vertical
                && !boxes@[out@[b] as int].vertical && boxes@[out@[a] as int].y < boxes@[out@[b] as int].y implies a
            < b by {
            if b < a {
                law_reading_order(boxes@, out@[a] as int, out@[b] as int);
            }
        }
    }
    out
}

} // verus!
