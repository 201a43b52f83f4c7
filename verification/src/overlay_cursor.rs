//! The overlay's cursor over recognised lines: the user-interface enums,
//! converting between (line, character) coordinates and global character
//! indices, the neighbour strip, the alternative-character picker and the
//! text matched at a cursor.
use vstd::prelude::*;
use crate::text::{chars_of, string_of};

verus! {

/// Where the dictionary panel docks.
#[derive(Debug, Clone, Copy, PartialEq, Eq, Structural)]
pub enum Gravity {
    Start,
    End,
    Top,
    Bottom,
}

/// Which text orientations recognition looks for.
#[derive(Debug, Clone, Copy, PartialEq, Eq, Structural)]
pub enum RecognitionMode {
    Horizontal,
    Vertical,
    Both,
}

/// A gamepad or keyboard navigation action.
#[derive(Debug, Clone, Copy, PartialEq, Eq, Structural)]
pub enum GamepadAction {
    NavigateLeft,
    NavigateRight,
    NavigateUp,
    NavigateDown,
    Confirm,
    Back,
    ScrollUp,
    ScrollDown,
}

/// Which detection tunable the viewer's +/- keys adjust.
#[derive(Debug, Clone, Copy, PartialEq, Eq, Structural)]
pub enum DetParam {
    Threshold,
    Unclip,
}

/// What a gamepad button press asks for.
#[derive(Debug, Clone, Copy, PartialEq, Eq, Structural)]
pub enum GamepadInput {
    Navigate(GamepadAction),
    /// Zoom out one step.
    ZoomOut,
    /// Zoom in one step.
    ZoomIn,
}

/// One character of the neighbour strip.
#[derive(Debug, Clone)]
pub struct NeighborChar {
    pub text: String,
    pub is_selected: bool,
    pub char_idx: usize,
}

/// One line of the neighbour strip.
#[derive(Debug, Clone)]
pub struct NeighborLine {
    pub chars: Vec<NeighborChar>,
    pub line_idx: usize,
}

/// The action of the pressed buttons, by priority: up, down, left, right,
/// A (confirm), B (back), L1/R1 (scroll), L2/R2 (zoom out/in).
pub open spec fn gamepad_input_of(bits: u32) -> Option<GamepadInput> {
    if bits & 1 != 0 {
        Some(GamepadInput::Navigate(GamepadAction::NavigateUp))
    } else if bits & 2 != 0 {
        Some(GamepadInput::Navigate(GamepadAction::NavigateDown))
    } else if bits & 4 != 0 {
        Some(GamepadInput::Navigate(GamepadAction::NavigateLeft))
    } else if bits & 8 != 0 {
        Some(GamepadInput::Navigate(GamepadAction::NavigateRight))
    } else if bits & 16 != 0 {
        Some(GamepadInput::Navigate(GamepadAction::Confirm))
    } else if bits & 32 != 0 {
        Some(GamepadInput::Navigate(GamepadAction::Back))
    } else if bits & 64 != 0 {
        Some(GamepadInput::Navigate(GamepadAction::ScrollUp))
    } else if bits & 128 != 0 {
        Some(GamepadInput::Navigate(GamepadAction::ScrollDown))
    } else if bits & 256 != 0 {
        Some(GamepadInput::ZoomOut)
    } else if bits & 512 != 0 {
        Some(GamepadInput::ZoomIn)
    } else {
        None
    }
}

/// The action of a gamepad button bit set.
pub fn gamepad_input(bits: u32) -> (r: Option<GamepadInput>)
    ensures
        r == gamepad_input_of(bits),
{
    if bits & 1 != 0 {
        Some(GamepadInput::Navigate(GamepadAction::NavigateUp))
    } else if bits & 2 != 0 {
        Some(GamepadInput::Navigate(GamepadAction::NavigateDown))
    } else if bits & 4 != 0 {
        Some(GamepadInput::Navigate(GamepadAction::NavigateLeft))
    } else if bits & 8 != 0 {
        Some(GamepadInput::Navigate(GamepadAction::NavigateRight))
    } else if bits & 16 != 0 {
        Some(GamepadInput::Navigate(GamepadAction::Confirm))
    } else if bits & 32 != 0 {
        Some(GamepadInput::Navigate(GamepadAction::Back))
    } else if bits & 64 != 0 {
        Some(GamepadInput::Navigate(GamepadAction::ScrollUp))
    } else if bits & 128 != 0 {
        Some(GamepadInput::Navigate(GamepadAction::ScrollDown))
    } else if bits & 256 != 0 {
        Some(GamepadInput::ZoomOut)
    } else if bits & 512 != 0 {
        Some(GamepadInput::ZoomIn)
    } else {
        None
    }
}

/// The navigation-graph direction of an action: north, south, east, west
/// for up, down, right, left.
pub open spec fn direction_of(action: GamepadAction) -> Option<usize> {
    match action {
        GamepadAction::NavigateUp => Some(0),
        GamepadAction::NavigateDown => Some(1),
        GamepadAction::NavigateRight => Some(2),
        GamepadAction::NavigateLeft => Some(3),
        _ => None,
    }
}

/// The navigation-graph direction of an action.
pub fn nav_direction(action: GamepadAction) -> (r: Option<usize>)
    ensures
        r == direction_of(action),
{
    match action {
        GamepadAction::NavigateUp => Some(0),
        GamepadAction::NavigateDown => Some(1),
        GamepadAction::NavigateRight => Some(2),
        GamepadAction::NavigateLeft => Some(3),
        _ => None,
    }
}

/// The cursor as indices, when both coordinates are set (non-negative).
pub fn current_cursor(line_idx: isize, char_idx: isize) -> (r: Option<(usize, usize)>)
    ensures
        r == (if line_idx < 0 || char_idx < 0 {
            None
        } else {
            Some((line_idx as usize, char_idx as usize))
        }),
{
    if line_idx < 0 || char_idx < 0 {
        return None;
    }
    Some((line_idx as usize, char_idx as usize))
}

/// Number of characters of a recognised line (none when there is no line).
pub open spec fn line_len(line: Option<String>) -> int {
    match line {
        Some(s) => s@.len() as int,
        None => 0,
    }
}

/// Characters on the first `k` lines.
pub open spec fn chars_before(lines: Seq<Option<String>>, k: int) -> int
    decreases k,
{
    if k <= 0 {
        0
    } else {
        chars_before(lines, k - 1) + line_len(lines[k - 1])
    }
}

/// The global index of character `c` of line `l`: the characters on the
/// lines before it (all lines when `l` is past the end), plus `c`.
pub open spec fn global_of(lines: Seq<Option<String>>, l: int, c: int) -> int {
    chars_before(lines, if l < lines.len() {
        l
    } else {
        lines.len() as int
    }) + c
}

proof fn lemma_chars_before_mono(lines: Seq<Option<String>>, a: int, b: int)
    requires
        0 <= a <= b,
    ensures
        chars_before(lines, a) <= chars_before(lines, b),
        chars_before(lines, a) >= 0,
    decreases b,
{
    if b > a {
        lemma_chars_before_mono(lines, a, b - 1);
    } else if a > 0 {
        lemma_chars_before_mono(lines, 0, a - 1);
    }
}

/// Characters of a line.
fn count_chars(line: &Option<String>) -> (r: usize)
    ensures
        r == line_len(*line),
{
    match line {
        Some(s) => chars_of(s.as_str()).len(),
        None => 0,
    }
}

/// The global character index of character `char_idx_in_line` of line
/// `line_idx`.
pub fn get_global_idx(lines: &Vec<Option<String>>, line_idx: usize, char_idx_in_line: usize) -> (r: usize)
    requires
        chars_before(lines@, lines.len() as int) + char_idx_in_line <= usize::MAX,
    ensures
        r == global_of(lines@, line_idx as int, char_idx_in_line as int),
{
    let stop = if line_idx < lines.len() {
        line_idx
    } else {
        lines.len()
    };
    let mut sum: usize = 0;
    let mut k: usize = 0;
    while k < stop
        invariant
            k <= stop <= lines.len(),
            sum == chars_before(lines@, k as int),
            chars_before(lines@, lines.len() as int) + char_idx_in_line <= usize::MAX,
        decreases stop - k,
    {
        proof {
            lemma_chars_before_mono(lines@, k + 1, lines.len() as int);
        }
        sum = sum + count_chars(&lines[k]);
        k += 1;
    }
    proof {
        lemma_chars_before_mono(lines@, stop as int, lines.len() as int);
    }
    sum + char_idx_in_line
}

/// The first line from `l` on that holds global index `g`, with the index
/// within it.
pub open spec fn locate_from(lines: Seq<Option<String>>, g: int, l: int) -> Option<(int, int)>
    decreases lines.len() - l,
{
    if l < 0 || l >= lines.len() {
        None
    } else if lines[l] is Some && g < chars_before(lines, l) + line_len(lines[l]) {
        Some((l, g - chars_before(lines, l)))
    } else {
        locate_from(lines, g, l + 1)
    }
}

/// The (line, character) coordinates of a global character index.
pub fn get_coords_from_global_idx(lines: &Vec<Option<String>>, global_idx: usize) -> (r: Option<(usize, usize)>)
    requires
        chars_before(lines@, lines.len() as int) <= usize::MAX,
    ensures
        match r {
            Some((l, c)) => locate_from(lines@, global_idx as int, 0) == Some((l as int, c as int)),
            None => locate_from(lines@, global_idx as int, 0) is None,
        },
{
    let mut count: usize = 0;
    let mut l: usize = 0;
    while l < lines.len()
        invariant
            l <= lines.len(),
            count == chars_before(lines@, l as int),
            count <= global_idx,
            chars_before(lines@, lines.len() as int) <= usize::MAX,
            locate_from(lines@, global_idx as int, 0) == locate_from(lines@, global_idx as int, l as int),
        decreases lines.len() - l,
    {
        proof {
            lemma_chars_before_mono(lines@, l + 1, lines.len() as int);
            lemma_chars_before_mono(lines@, 0, l as int);
        }
        let len = count_chars(&lines[l]);
        if lines[l].is_some() && global_idx < count + len {
            return Some((l, global_idx - count));
        }
        count = count + len;
        l += 1;
    }
    None
}

/// A global index names the character it was computed from: character `c`
/// of line `l`, when line `l` is recognised and has more than `c`
/// characters, is found again at its global index.
pub proof fn law_global_index_roundtrip(lines: Seq<Option<String>>, l: int, c: int)
    requires
        0 <= l < lines.len(),
        lines[l] is Some,
        0 <= c < line_len(lines[l]),
    ensures
        locate_from(lines, global_of(lines, l, c), 0) == Some((l, c)),
{
    let g = global_of(lines, l, c);
    lemma_locate_skips(lines, g, l, 0);
}

/// Lines before `l` do not hold an index at or past the start of line `l`.
proof fn lemma_locate_skips(lines: Seq<Option<String>>, g: int, l: int, k: int)
    requires
        0 <= k <= l < lines.len(),
        lines[l] is Some,
        chars_before(lines, l) <= g < chars_before(lines, l) + line_len(lines[l]),
    ensures
        locate_from(lines, g, k) == Some((l, g - chars_before(lines, l))),
    decreases l - k,
{
    if k < l {
        lemma_chars_before_mono(lines, k + 1, l);
        lemma_locate_skips(lines, g, l, k + 1);
    }
}

/// Coordinates found for a global index give that index back.
pub proof fn law_coords_roundtrip(lines: Seq<Option<String>>, g: int)
    requires
        0 <= g,
        locate_from(lines, g, 0) is Some,
    ensures
        ({
            let (l, c) = locate_from(lines, g, 0).unwrap();
            global_of(lines, l, c) == g && 0 <= l < lines.len() && 0 <= c < line_len(lines[l])
        }),
{
    lemma_locate_sound(lines, g, 0);
}

proof fn lemma_locate_sound(lines: Seq<Option<String>>, g: int, k: int)
    requires
        0 <= k,
        chars_before(lines, k) <= g,
        locate_from(lines, g, k) is Some,
    ensures
        ({
            let (l, c) = locate_from(lines, g, k).unwrap();
            global_of(lines, l, c) == g && 0 <= l < lines.len() && 0 <= c < line_len(lines[l])
                && k <= l
        }),
    decreases lines.len() - k,
{
    if 0 <= k < lines.len() && !(lines[k] is Some && g < chars_before(lines, k) + line_len(
        lines[k],
    )) {
        lemma_locate_sound(lines, g, k + 1);
    }
}

/// No coordinates lie at or past the end: a global index at or beyond the
/// number of characters on all lines is found on no line.
pub proof fn law_no_coords_past_the_end(lines: Seq<Option<String>>, g: int)
    requires
        g >= chars_before(lines, lines.len() as int),
    ensures
        locate_from(lines, g, 0) is None,
{
    lemma_chars_before_mono(lines, 0, lines.len() as int);
    if locate_from(lines, g, 0) is Some {
        lemma_locate_sound(lines, g, 0);
        let (l, c) = locate_from(lines, g, 0).unwrap();
        lemma_chars_before_mono(lines, l + 1, lines.len() as int);
        assert(chars_before(lines, l + 1) == chars_before(lines, l) + line_len(lines[l]));
    }
}

/// The first line with any characters, from line `l` on.
pub open spec fn first_text_line(lines: Seq<Option<String>>, l: int) -> Option<int>
    decreases lines.len() - l,
{
    if l < 0 || l >= lines.len() {
        None
    } else if lines[l] is Some && line_len(lines[l]) > 0 {
        Some(l)
    } else {
        first_text_line(lines, l + 1)
    }
}

/// Where an unset cursor goes: the first character of the first line with
/// any text, as (line, global index). `None` when the cursor is set (both
/// coordinates non-negative) or no line has text.
pub fn cursor_start(lines: &Vec<Option<String>>, line_idx: isize, char_idx: isize) -> (r: Option<
    (usize, usize),
>)
    requires
        chars_before(lines@, lines.len() as int) <= usize::MAX,
    ensures
        (line_idx != -1 && char_idx != -1) ==> r is None,
        (line_idx == -1 || char_idx == -1) ==> match first_text_line(lines@, 0) {
            Some(l) => r == Some((l as usize, global_of(lines@, l, 0) as usize)),
            None => r is None,
        },
{
    if line_idx != -1 && char_idx != -1 {
        return None;
    }
    let mut l: usize = 0;
    while l < lines.len()
        invariant
            l <= lines.len(),
            line_idx == -1 || char_idx == -1,
            chars_before(lines@, lines.len() as int) <= usize::MAX,
            first_text_line(lines@, 0) == first_text_line(lines@, l as int),
        decreases lines.len() - l,
    {
        if lines[l].is_some() && count_chars(&lines[l]) > 0 {
            let g = get_global_idx(lines, l, 0);
            return Some((l, g));
        }
        l += 1;
    }
    None
}

/// Character `k` of the neighbour strip's line `l` shows `text[k]`, carries
/// its index, and is selected when the cursor is on it.
pub open spec fn neighbor_char_ok(ch: NeighborChar, k: int, text: Seq<char>, l: int, cursor_line: isize, cursor_char: isize) -> bool {
    &&& ch.char_idx == k
    &&& ch.text@ == seq![text[k]]
    &&& ch.is_selected == (l == cursor_line && k == cursor_char)
}

/// Line `l` of the neighbour strip shows the characters of the recognised
/// line (none when nothing was recognised there).
pub open spec fn neighbor_line_ok(nl: NeighborLine, l: int, line: Option<String>, cursor_line: isize, cursor_char: isize) -> bool {
    &&& nl.line_idx == l
    &&& nl.chars.len() == line_len(line)
    &&& forall|c: int|
        0 <= c < nl.chars.len() ==> #[trigger] neighbor_char_ok(
            nl.chars@[c],
            c,
            line.unwrap()@,
            l,
            cursor_line,
            cursor_char,
        )
}

/// The neighbour strip: every line (an empty one where nothing was
/// recognised), each character with its index and whether the cursor is on
/// it.
pub fn get_neighbor_ui_state(lines: &Vec<Option<String>>, cursor_line: isize, cursor_char: isize) -> (r:
    Vec<NeighborLine>)
    ensures
        r.len() == lines.len(),
        forall|l: int|
            0 <= l < lines.len() ==> #[trigger] neighbor_line_ok(r@[l], l, lines@[l], cursor_line, cursor_char),
{
    let mut out: Vec<NeighborLine> = Vec::new();
    let mut l: usize = 0;
    while l < lines.len()
        invariant
            l <= lines.len(),
            out.len() == l,
            forall|j: int|
                0 <= j < l ==> #[trigger] neighbor_line_ok(out@[j], j, lines@[j], cursor_line, cursor_char),
        decreases lines.len() - l,
    {
        let mut chars: Vec<NeighborChar> = Vec::new();
        match &lines[l] {
            Some(text) => {
                let cs = chars_of(text.as_str());
                let mut c: usize = 0;
                while c < cs.len()
                    invariant
                        c <= cs.len(),
                        l < lines.len(),
                        lines@[l as int] == Some(*text),
                        cs@ == text@,
                        chars.len() == c,
                        forall|k: int|
                            0 <= k < c ==> #[trigger] neighbor_char_ok(
                                chars@[k],
                                k,
                                text@,
                                l as int,
                                cursor_line,
                                cursor_char,
                            ),
                    decreases cs.len() - c,
                {
                    let mut one: Vec<char> = Vec::new();
                    one.push(cs[c]);
                    let selected = cursor_line >= 0 && cursor_line as usize == l && cursor_char >= 0
                        && cursor_char as usize == c;
                    let ghost cb = chars@;
                    chars.push(NeighborChar { text: string_of(&one), is_selected: selected, char_idx: c });
                    proof {
                        assert forall|k: int| 0 <= k < c + 1 implies #[trigger] neighbor_char_ok(
                            chars@[k],
                            k,
                            text@,
                            l as int,
                            cursor_line,
                            cursor_char,
                        ) by {
                            if k < c {
                                assert(chars@[k] == cb[k]);
                            } else {
                                assert(one@ == seq![text@[c as int]]);
                            }
                        }
                    }
                    c += 1;
                }
            },
            None => {},
        }
        let ghost before = out@;
        let nl = NeighborLine { chars, line_idx: l };
        proof {
            assert(neighbor_line_ok(nl, l as int, lines@[l as int], cursor_line, cursor_char));
        }
        out.push(nl);
        proof {
            assert forall|j: int| 0 <= j < l + 1 implies #[trigger] neighbor_line_ok(
                out@[j],
                j,
                lines@[j],
                cursor_line,
                cursor_char,
            ) by {
                if j < l {
                    assert(out@[j] == before[j]);
                }
            }
        }
        l += 1;
    }
    out
}

/// The alternatives step of the picker: with `alternatives` ranked (only
/// the first fifteen are offered) and `current` the character shown, a
/// step forward (down in landscape, right in portrait) or back (up in
/// landscape, left in portrait) from the current character's place (the
/// first one when it is not offered), kept within the offered list.
pub open spec fn picker_step(is_landscape: bool, dir: GamepadAction) -> int {
    if (dir == GamepadAction::NavigateDown && is_landscape) || (dir == GamepadAction::NavigateRight
        && !is_landscape) {
        1
    } else if (dir == GamepadAction::NavigateUp && is_landscape) || (dir == GamepadAction::NavigateLeft
        && !is_landscape) {
        -1
    } else {
        0
    }
}

/// The offered alternatives: at most the first fifteen.
pub open spec fn offered(alternatives: Seq<char>) -> Seq<char> {
    if alternatives.len() > 15 {
        alternatives.take(15)
    } else {
        alternatives
    }
}

/// The index the picker moves to, `None` when the action is not a step or
/// the index does not change.
pub fn navigate_alternatives(is_landscape: bool, dir: GamepadAction, alternatives: &Vec<char>, current: char) -> (r:
    Option<usize>)
    requires
        picker_step(is_landscape, dir) != 0 ==> alternatives.len() > 0,
    ensures
        ({
            let o = offered(alternatives@);
            let f = crate::nav_graph::first_index(|k: int| o[k] == current, 0, o.len() as int);
            let cur = if f < o.len() {
                f
            } else {
                0
            };
            let step = picker_step(is_landscape, dir);
            let next = if cur + step < 0 {
                0
            } else if cur + step > o.len() - 1 {
                o.len() - 1
            } else {
                cur + step
            };
            if step == 0 || next == cur {
                r is None
            } else {
                r == Some(next as usize)
            }
        }),
{
    let diff: isize = if (dir == GamepadAction::NavigateDown && is_landscape) || (dir
        == GamepadAction::NavigateRight && !is_landscape) {
        1
    } else if (dir == GamepadAction::NavigateUp && is_landscape) || (dir == GamepadAction::NavigateLeft
        && !is_landscape) {
        -1
    } else {
        0
    };
    if diff == 0 {
        return None;
    }
    let count: usize = if alternatives.len() > 15 {
        15
    } else {
        alternatives.len()
    };
    let ghost o = offered(alternatives@);
    proof {
        assert(o.len() == count);
        assert forall|k: int| 0 <= k < count implies o[k] == alternatives@[k] by {}
    }
    let ghost p = |k: int| o[k] == current;
    let mut cur: usize = 0;
    let mut found = false;
    let mut k: usize = 0;
    while k < count && !found
        invariant
            k <= count <= alternatives.len(),
            count == o.len(),
            forall|j: int| 0 <= j < count ==> o[j] == alternatives@[j],
            p == (|k: int| o[k] == current),
            found ==> cur < count && p(cur as int) && forall|j: int| #![trigger p(j)] 0 <= j < cur ==> !p(j),
            !found ==> cur == 0 && forall|j: int| #![trigger p(j)] 0 <= j < k ==> !p(j),
        decreases count - k, if found { 0int } else { 1int },
    {
        if alternatives[k] == current {
            cur = k;
            found = true;
        } else {
            k += 1;
        }
    }
    proof {
        if found {
            crate::nav_graph::lemma_first_index_is(p, 0, count as int, cur as int);
        } else {
            crate::nav_graph::lemma_first_index_is(p, 0, count as int, count as int);
        }
    }
    let next: usize = if diff < 0 {
        if cur == 0 {
            0
        } else {
            cur - 1
        }
    } else {
        if cur + 1 > count - 1 {
            count - 1
        } else {
            cur + 1
        }
    };
    if next == cur {
        None
    } else {
        Some(next)
    }
}

/// Whether a character is the ideographic space U+3000.
pub open spec fn is_ideographic_space(s: Seq<char>) -> bool {
    s == seq!['\u{3000}']
}

/// The term starting at global character `global_idx`: up to `term_len`
/// characters from there on, ideographic spaces skipped.
pub open spec fn term_from(chars: Seq<Seq<char>>, len: int) -> Seq<char>
    decreases chars.len(),
{
    if chars.len() == 0 || len <= 0 {
        Seq::empty()
    } else if is_ideographic_space(chars[0]) {
        term_from(chars.drop_first(), len)
    } else {
        chars[0] + term_from(chars.drop_first(), len - 1)
    }
}

/// `s` from index `i` on (empty when `i` is past the end).
pub open spec fn tail_from<A>(s: Seq<A>, i: int) -> Seq<A> {
    if i <= s.len() {
        s.skip(i)
    } else {
        Seq::empty()
    }
}

/// The characters (each as a string) as sequences.
pub open spec fn strings_view(v: Seq<String>) -> Seq<Seq<char>> {
    v.map_values(|s: String| s@)
}

/// The term matched at a global character index.
pub fn matched_term_at(all_chars: &Vec<String>, global_idx: usize, term_len: usize) -> (r: String)
    ensures
        r@ == term_from(tail_from(strings_view(all_chars@), global_idx as int), term_len as int),
{
    let space = chars_of("\u{3000}");
    proof {
        reveal_strlit("\u{3000}");
    }
    let mut out: Vec<char> = Vec::new();
    let mut taken: usize = 0;
    let mut i: usize = global_idx;
    let ghost all = strings_view(all_chars@);
    proof {
        assert(out@ + term_from(tail_from(all, i as int), term_len - taken) =~= term_from(
            tail_from(all, global_idx as int),
            term_len as int,
        ));
    }
    while i < all_chars.len() && taken < term_len
        invariant
            taken <= term_len,
            space@ == seq!['\u{3000}'],
            all == strings_view(all_chars@),
            all.len() == all_chars.len(),
            out@ + term_from(tail_from(all, i as int), term_len - taken) == term_from(
                tail_from(all, global_idx as int),
                term_len as int,
            ),
        decreases all_chars.len() - i,
    {
        let s = chars_of(all_chars[i].as_str());
        proof {
            assert(tail_from(all, i as int)[0] == s@);
            assert(tail_from(all, i as int).drop_first() =~= tail_from(all, i + 1));
        }
        if !crate::text::chars_equal(&s, &space) {
            let mut k: usize = 0;
            let ghost before = out@;
            while k < s.len()
                invariant
                    k <= s.len(),
                    out@ == before + s@.take(k as int),
                decreases s.len() - k,
            {
                out.push(s[k]);
                proof {
                    assert(s@.take(k + 1) =~= s@.take(k as int).push(s@[k as int]));
                }
                k += 1;
            }
            proof {
                assert(s@.take(s.len() as int) =~= s@);
                assert(out@ + term_from(tail_from(all, i + 1), term_len - taken - 1) =~= before + (s@
                    + term_from(tail_from(all, i + 1), term_len - taken - 1)));
            }
            taken += 1;
        }
        i += 1;
    }
    proof {
        if i >= all_chars.len() {
            assert(tail_from(all, i as int).len() == 0);
        }
        assert(out@ + Seq::<char>::empty() =~= out@);
    }
    string_of(&out)
}


/// A key as the viewer sees it, after modifiers: a character, F1, or
/// anything else.
#[derive(Debug, Clone)]
pub enum KeyInput {
    Character(String),
    F1,
    Other,
}

/// The detection-tuning request of a key.
#[derive(Debug, Clone, Copy, PartialEq, Eq, Structural)]
pub enum TuneKey {
    /// Lower the unclip ratio one step.
    UnclipDown,
    /// Raise the unclip ratio one step.
    UnclipUp,
    /// Lower the detection threshold one step.
    ThresholdDown,
    /// Raise the detection threshold one step.
    ThresholdUp,
    /// Restore both tunables to their startup values.
    Reset,
    /// Show or hide the tuning display.
    ToggleHud,
}

/// The tuning request of a key, matched on the modified key so that layouts
/// which put a tuning character behind Shift still work: `[`/`]` for the
/// unclip ratio, `-`/`_` and `=`/`+` for the threshold, `r`/`R` to reset,
/// F1 for the display.
pub open spec fn tune_key_of(key: KeyInput) -> Option<TuneKey> {
    match key {
        KeyInput::Character(c) => if c@ == seq!['['] {
            Some(TuneKey::UnclipDown)
        } else if c@ == seq![']'] {
            Some(TuneKey::UnclipUp)
        } else if c@ == seq!['-'] || c@ == seq!['_'] {
            Some(TuneKey::ThresholdDown)
        } else if c@ == seq!['='] || c@ == seq!['+'] {
            Some(TuneKey::ThresholdUp)
        } else if c@ == seq!['r'] || c@ == seq!['R'] {
            Some(TuneKey::Reset)
        } else {
            None
        },
        KeyInput::F1 => Some(TuneKey::ToggleHud),
        KeyInput::Other => None,
    }
}

/// The tuning request of a key (see [`tune_key_of`]).
pub fn tune_key_message(key: &KeyInput) -> (r: Option<TuneKey>)
    ensures
        r == tune_key_of(*key),
{
    match key {
        KeyInput::Character(c) => {
            let v = chars_of(c.as_str());
            if v.len() != 1 {
                return None;
            }
            let ch = v[0];
            proof {
                assert(v@ =~= seq![ch]);
            }
            if ch == '[' {
                Some(TuneKey::UnclipDown)
            } else if ch == ']' {
                Some(TuneKey::UnclipUp)
            } else if ch == '-' || ch == '_' {
                Some(TuneKey::ThresholdDown)
            } else if ch == '=' || ch == '+' {
                Some(TuneKey::ThresholdUp)
            } else if ch == 'r' || ch == 'R' {
                Some(TuneKey::Reset)
            } else {
                None
            }
        },
        KeyInput::F1 => Some(TuneKey::ToggleHud),
        KeyInput::Other => None,
    }
}

/// The cursor move a navigation action makes on the graph: from the cursor
/// (line, character) to the target of its global index in the action's
/// direction, as (line, character, global index). `None` when the cursor is
/// unset, the action is no direction, or there is no target or no character
/// at it.
pub fn navigate_cursor(
    lines: &Vec<Option<String>>,
    cursor_line: isize,
    cursor_char: isize,
    graph: &crate::nav_graph::NavGraph,
    action: GamepadAction,
) -> (r: Option<(usize, usize, usize)>)
    requires
        chars_before(lines@, lines.len() as int) + (if cursor_char >= 0 {
            cursor_char as int
        } else {
            0
        }) <= usize::MAX,
        graph.n <= graph.edges.len(),
    ensures
        match r {
            Some((l, c, g)) => {
                &&& cursor_line >= 0 && cursor_char >= 0
                &&& direction_of(action) is Some
                &&& {
                    let from = global_of(lines@, cursor_line as int, cursor_char as int);
                    let d = direction_of(action).unwrap() as int;
                    &&& from < graph.n
                    &&& g as int == graph.edges@[from]@[d]
                    &&& g < graph.n
                }
                &&& locate_from(lines@, g as int, 0) == Some((l as int, c as int))
            },
            None => {
                ||| cursor_line < 0 || cursor_char < 0
                ||| direction_of(action) is None
                ||| {
                    let from = global_of(lines@, cursor_line as int, cursor_char as int);
                    let d = direction_of(action).unwrap() as int;
                    ||| from >= graph.n
                    ||| graph.edges@[from]@[d] >= graph.n
                    ||| locate_from(lines@, graph.edges@[from]@[d] as int, 0) is None
                }
            },
        },
{
    let (line_idx, char_idx) = match current_cursor(cursor_line, cursor_char) {
        Some(c) => c,
        None => {
            return None;
        },
    };
    proof {
        assert(line_idx as int == cursor_line as int);
        assert(char_idx as int == cursor_char as int);
    }
    let global = get_global_idx(lines, line_idx, char_idx);
    let dir = match nav_direction(action) {
        Some(d) => d,
        None => {
            return None;
        },
    };
    match graph.navigate(global, dir) {
        Some(next) => {
            proof {
                lemma_chars_before_mono(lines@, 0, lines.len() as int);
            }
            proof {
                assert(global as int == global_of(lines@, cursor_line as int, cursor_char as int));
                assert(dir as int == direction_of(action).unwrap() as int);
                assert(next == graph.edges@[global as int]@[dir as int]);
            }
            match get_coords_from_global_idx(lines, next) {
                Some((nl, nc)) => Some((nl, nc, next)),
                None => None,
            }
        },
        None => None,
    }
}


/// The coordinates highlighted after the first character of a word of `n`
/// characters starting at global index `g`: those of `g + 1 .. g + n - 1`
/// that hold a character, in order.
pub open spec fn highlight_tail(lines: Seq<Option<String>>, g: int, n: int) -> Seq<(usize, usize)>
    decreases n,
{
    if n <= 1 {
        Seq::empty()
    } else {
        let before = highlight_tail(lines, g, n - 1);
        match locate_from(lines, g + n - 1, 0) {
            Some((l, c)) => before.push((l as usize, c as usize)),
            None => before,
        }
    }
}

/// The coordinates to highlight for a word of `word_length` characters that
/// starts at character `char_idx` of line `line_idx`: that position first,
/// then each following global index that holds a character.
pub fn update_highlight_coords(
    lines: &Vec<Option<String>>,
    line_idx: usize,
    char_idx: usize,
    word_length: usize,
) -> (r: Vec<(usize, usize)>)
    requires
        chars_before(lines@, lines.len() as int) + char_idx <= usize::MAX,
        global_of(lines@, line_idx as int, char_idx as int) + word_length <= usize::MAX + 1,
    ensures
        r@ == seq![(line_idx, char_idx)] + highlight_tail(
            lines@,
            global_of(lines@, line_idx as int, char_idx as int),
            word_length as int,
        ),
{
    let g = get_global_idx(lines, line_idx, char_idx);
    let n: usize = if word_length > 1 {
        word_length
    } else {
        1
    };
    let mut out: Vec<(usize, usize)> = Vec::new();
    out.push((line_idx, char_idx));
    proof {
        lemma_chars_before_mono(lines@, 0, lines.len() as int);
        assert(out@ =~= seq![(line_idx, char_idx)] + highlight_tail(lines@, g as int, 1));
    }
    let mut i: usize = 1;
    while i < n
        invariant
            1 <= i <= n,
            n as int == (if word_length > 1 {
                word_length as int
            } else {
                1
            }),
            g as int == global_of(lines@, line_idx as int, char_idx as int),
            g + word_length <= usize::MAX + 1,
            chars_before(lines@, lines.len() as int) <= usize::MAX,
            out@ == seq![(line_idx, char_idx)] + highlight_tail(lines@, g as int, i as int),
        decreases n - i,
    {
        let ghost before = out@;
        match get_coords_from_global_idx(lines, g + i) {
            Some(p) => {
                out.push(p);
                proof {
                    assert(out@ =~= seq![(line_idx, char_idx)] + highlight_tail(lines@, g as int, i + 1));
                }
            },
            None => {},
        }
        i += 1;
    }
    out
}

/// Put `new_char` in place of character `char_idx` of line `line_idx`, and
/// give back the character it replaced. `None`, with nothing changed, when
/// there is no such line or character.
pub fn update_character(lines: &mut Vec<Option<String>>, line_idx: usize, char_idx: usize, new_char: char) -> (r:
    Option<char>)
    ensures
        match r {
            Some(replaced) => {
                &&& line_idx < old(lines)@.len()
                &&& old(lines)@[line_idx as int] is Some
                &&& char_idx < old(lines)@[line_idx as int].unwrap()@.len()
                &&& replaced == old(lines)@[line_idx as int].unwrap()@[char_idx as int]
                &&& final(lines)@.len() == old(lines)@.len()
                &&& forall|k: int|
                    0 <= k < old(lines)@.len() && k != line_idx ==> #[trigger] final(lines)@[k] == old(
                        lines,
                    )@[k]
                &&& final(lines)@[line_idx as int] is Some
                &&& final(lines)@[line_idx as int].unwrap()@ == old(lines)@[line_idx as int].unwrap()@.update(
                    char_idx as int,
                    new_char,
                )
            },
            None => {
                &&& final(lines)@ == old(lines)@
                &&& !(line_idx < old(lines)@.len() && old(lines)@[line_idx as int] is Some && char_idx < old(
                    lines,
                )@[line_idx as int].unwrap()@.len())
            },
        },
{
    if line_idx >= lines.len() {
        return None;
    }
    let mut cs = match &lines[line_idx] {
        Some(text) => chars_of(text.as_str()),
        None => {
            return None;
        },
    };
    if char_idx >= cs.len() {
        return None;
    }
    let replaced = cs[char_idx];
    cs.set(char_idx, new_char);
    lines.set(line_idx, Some(string_of(&cs)));
    Some(replaced)
}

/// `lines` with each result placed at its index in turn, the list grown with
/// empty slots where an index lies past its end (a later result for the
/// same index wins).
pub open spec fn placed<T>(lines: Seq<Option<T>>, results: Seq<(usize, T)>) -> Seq<Option<T>>
    decreases results.len(),
{
    if results.len() == 0 {
        lines
    } else {
        let before = placed(lines, results.drop_last());
        let i = results.last().0 as int;
        let grown = if before.len() <= i {
            before + Seq::new((i + 1 - before.len()) as nat, |k: int| None::<T>)
        } else {
            before
        };
        grown.update(i, Some(results.last().1))
    }
}

/// Place many line results at once, by index and in any order (see
/// [`placed`]).
pub fn set_line_results_batch<T>(lines: &mut Vec<Option<T>>, results: Vec<(usize, T)>)
    requires
        forall|k: int| 0 <= k < results.len() ==> (#[trigger] results@[k]).0 < usize::MAX,
    ensures
        final(lines)@ == placed(old(lines)@, results@),
{
    let ghost all = results@;
    assert(all.len() == results.len());
    let mut rest = results;
    let mut k: usize = 0;
    proof {
        assert(all.take(0) =~= Seq::<(usize, T)>::empty());
        assert(all.skip(0) =~= all);
    }
    while rest.len() > 0
        invariant
            k <= all.len() <= usize::MAX,
            rest@ == all.skip(k as int),
            lines@ == placed(old(lines)@, all.take(k as int)),
            forall|j: int| 0 <= j < all.len() ==> (#[trigger] all[j]).0 < usize::MAX,
        decreases rest.len(),
    {
        assert(k < all.len());
        let (index, line) = rest.remove(0);
        proof {
            assert(all[k as int] == (index, line));
            assert(all.skip(k + 1) =~= all.skip(k as int).drop_first());
            assert(all.take(k + 1).drop_last() =~= all.take(k as int));
            assert(all.take(k + 1).last() == (index, line));
        }
        let ghost before = lines@;
        while lines.len() <= index
            invariant
                index < usize::MAX,
                before.len() <= lines.len(),
                lines.len() <= index + 1 || lines.len() == before.len(),
                lines@ == before + Seq::new((lines.len() - before.len()) as nat, |j: int| None::<T>),
            decreases index + 1 - lines.len(),
        {
            lines.push(None);
        }
        proof {
            if before.len() <= index {
                assert(lines@ =~= before + Seq::new((index + 1 - before.len()) as nat, |j: int| None::<T>));
            } else {
                assert(lines@ =~= before);
            }
        }
        lines.set(index, Some(line));
        k += 1;
    }
    proof {
        assert(all.take(k as int) =~= all);
    }
}

/// Every character of the recognised lines, in order, each as a string.
pub open spec fn all_chars_spec(lines: Seq<Option<String>>) -> Seq<Seq<char>>
    decreases lines.len(),
{
    if lines.len() == 0 {
        Seq::empty()
    } else {
        all_chars_spec(lines.drop_last()) + match lines.last() {
            Some(s) => Seq::new(s@.len(), |j: int| seq![s@[j]]),
            None => Seq::empty(),
        }
    }
}

/// The characters of the recognised lines, in order, each as a string.
pub fn all_chars(lines: &Vec<Option<String>>) -> (r: Vec<String>)
    ensures
        strings_view(r@) == all_chars_spec(lines@),
{
    let mut out: Vec<String> = Vec::new();
    let mut l: usize = 0;
    proof {
        assert(lines@.take(0) =~= Seq::<Option<String>>::empty());
        assert(strings_view(out@) =~= Seq::<Seq<char>>::empty());
    }
    while l < lines.len()
        invariant
            l <= lines.len(),
            strings_view(out@) == all_chars_spec(lines@.take(l as int)),
        decreases lines.len() - l,
    {
        proof {
            assert(lines@.take(l + 1).drop_last() =~= lines@.take(l as int));
            assert(lines@.take(l + 1).last() == lines@[l as int]);
        }
        let ghost start = strings_view(out@);
        match &lines[l] {
            Some(text) => {
                let cs = chars_of(text.as_str());
                let mut c: usize = 0;
                while c < cs.len()
                    invariant
                        c <= cs.len(),
                        cs@ == text@,
                        strings_view(out@) == start + Seq::new(c as nat, |j: int| seq![text@[j]]),
                    decreases cs.len() - c,
                {
                    let mut one: Vec<char> = Vec::new();
                    one.push(cs[c]);
                    let ghost before = out@;
                    out.push(string_of(&one));
                    proof {
                        assert(one@ =~= seq![text@[c as int]]);
                        assert(strings_view(out@) =~= strings_view(before).push(seq![text@[c as int]]));
                        assert(start + Seq::new((c + 1) as nat, |j: int| seq![text@[j]]) =~= (start
                            + Seq::new(c as nat, |j: int| seq![text@[j]])).push(seq![text@[c as int]]));
                    }
                    c += 1;
                }
            },
            None => {
                proof {
                    assert(start + Seq::<Seq<char>>::empty() =~= start);
                }
            },
        }
        l += 1;
    }
    proof {
        assert(lines@.take(lines.len() as int) =~= lines@);
    }
    out
}

} // verus!
