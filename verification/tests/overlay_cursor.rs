use accessibility_daemon::nav_graph::NavGraph;
use accessibility_daemon::overlay_cursor::{
    all_chars, navigate_cursor, update_character, update_highlight_coords, set_line_results_batch, tune_key_message, KeyInput, TuneKey,
    current_cursor, cursor_start, gamepad_input, get_coords_from_global_idx, get_global_idx,
    get_neighbor_ui_state, matched_term_at, nav_direction, navigate_alternatives, GamepadAction,
    GamepadInput,
};

fn lines() -> Vec<Option<String>> {
    vec![Some("日本".to_string()), None, Some("".to_string()), Some("語です".to_string())]
}

#[test]
fn global_indices_and_coordinates_round_trip() {
    let l = lines();
    assert_eq!(get_global_idx(&l, 0, 1), 1);
    assert_eq!(get_global_idx(&l, 3, 2), 4);
    assert_eq!(get_global_idx(&l, 9, 0), 5);
    assert_eq!(get_coords_from_global_idx(&l, 0), Some((0, 0)));
    assert_eq!(get_coords_from_global_idx(&l, 2), Some((3, 0)));
    assert_eq!(get_coords_from_global_idx(&l, 4), Some((3, 2)));
    assert_eq!(get_coords_from_global_idx(&l, 5), None);
    for g in 0..5 {
        let (li, ci) = get_coords_from_global_idx(&l, g).unwrap();
        assert_eq!(get_global_idx(&l, li, ci), g);
    }
}

#[test]
fn an_unset_cursor_starts_on_the_first_text() {
    let l = vec![None, Some("".to_string()), Some("ab".to_string())];
    assert_eq!(cursor_start(&l, -1, -1), Some((2, 0)));
    assert_eq!(cursor_start(&l, 0, -1), Some((2, 0)));
    assert_eq!(cursor_start(&l, 1, 0), None);
    assert_eq!(cursor_start(&vec![None], -1, -1), None);
    assert_eq!(current_cursor(-1, 0), None);
    assert_eq!(current_cursor(2, 3), Some((2, 3)));
}

#[test]
fn neighbour_strip_marks_the_cursor() {
    let strip = get_neighbor_ui_state(&lines(), 3, 1);
    assert_eq!(strip.len(), 4);
    assert_eq!(strip[1].chars.len(), 0);
    assert_eq!(strip[3].line_idx, 3);
    let texts: Vec<&str> = strip[3].chars.iter().map(|c| c.text.as_str()).collect();
    assert_eq!(texts, vec!["語", "で", "す"]);
    let selected: Vec<bool> = strip[3].chars.iter().map(|c| c.is_selected).collect();
    assert_eq!(selected, vec![false, true, false]);
    assert!(strip[0].chars.iter().all(|c| !c.is_selected));
}

#[test]
fn gamepad_buttons_by_priority() {
    assert_eq!(gamepad_input(1), Some(GamepadInput::Navigate(GamepadAction::NavigateUp)));
    assert_eq!(gamepad_input(1 | 2), Some(GamepadInput::Navigate(GamepadAction::NavigateUp)));
    assert_eq!(gamepad_input(8), Some(GamepadInput::Navigate(GamepadAction::NavigateRight)));
    assert_eq!(gamepad_input(16), Some(GamepadInput::Navigate(GamepadAction::Confirm)));
    assert_eq!(gamepad_input(256), Some(GamepadInput::ZoomOut));
    assert_eq!(gamepad_input(512), Some(GamepadInput::ZoomIn));
    assert_eq!(gamepad_input(1024), None);
    assert_eq!(nav_direction(GamepadAction::NavigateLeft), Some(3));
    assert_eq!(nav_direction(GamepadAction::Back), None);
}

#[test]
fn alternatives_picker_steps_within_the_offered_list() {
    let alts: Vec<char> = "一二三四".chars().collect();
    // Portrait: right steps forward, left back; landscape: down/up.
    assert_eq!(navigate_alternatives(false, GamepadAction::NavigateRight, &alts, '二'), Some(2));
    assert_eq!(navigate_alternatives(false, GamepadAction::NavigateLeft, &alts, '二'), Some(0));
    assert_eq!(navigate_alternatives(true, GamepadAction::NavigateDown, &alts, '二'), Some(2));
    assert_eq!(navigate_alternatives(true, GamepadAction::NavigateRight, &alts, '二'), None);
    // At the ends the index stays, so nothing changes.
    assert_eq!(navigate_alternatives(false, GamepadAction::NavigateLeft, &alts, '一'), None);
    assert_eq!(navigate_alternatives(false, GamepadAction::NavigateRight, &alts, '四'), None);
    // A character that is not offered counts as the first.
    assert_eq!(navigate_alternatives(false, GamepadAction::NavigateRight, &alts, '零'), Some(1));
    // Only the first fifteen are offered.
    let many: Vec<char> = "abcdefghijklmnopq".chars().collect();
    assert_eq!(navigate_alternatives(false, GamepadAction::NavigateRight, &many, 'o'), None);
    assert_eq!(navigate_alternatives(false, GamepadAction::NavigateRight, &many, 'p'), Some(1));
}

#[test]
fn matched_term_skips_ideographic_spaces() {
    let chars: Vec<String> = ["日", "\u{3000}", "本", "語", "で"].iter().map(|s| s.to_string()).collect();
    assert_eq!(matched_term_at(&chars, 0, 3), "日本語");
    assert_eq!(matched_term_at(&chars, 2, 10), "本語で");
    assert_eq!(matched_term_at(&chars, 9, 2), "");
}

#[test]
fn tuning_keys_follow_the_modified_key() {
    let ch = |s: &str| KeyInput::Character(s.to_string());
    assert_eq!(tune_key_message(&ch("[")), Some(TuneKey::UnclipDown));
    assert_eq!(tune_key_message(&ch("]")), Some(TuneKey::UnclipUp));
    assert_eq!(tune_key_message(&ch("_")), Some(TuneKey::ThresholdDown));
    assert_eq!(tune_key_message(&ch("+")), Some(TuneKey::ThresholdUp));
    assert_eq!(tune_key_message(&ch("R")), Some(TuneKey::Reset));
    assert_eq!(tune_key_message(&KeyInput::F1), Some(TuneKey::ToggleHud));
    assert_eq!(tune_key_message(&ch("x")), None);
    assert_eq!(tune_key_message(&ch("[]")), None);
    assert_eq!(tune_key_message(&KeyInput::Other), None);
}

#[test]
fn navigation_moves_the_cursor_along_the_graph() {
    let l = lines();
    let g = NavGraph::fallback(5);
    // From 日 (global 0) north is global 1 (本), east is global 3 (で).
    assert_eq!(navigate_cursor(&l, 0, 0, &g, GamepadAction::NavigateUp), Some((0, 1, 1)));
    assert_eq!(navigate_cursor(&l, 0, 0, &g, GamepadAction::NavigateRight), Some((3, 1, 3)));
    assert_eq!(navigate_cursor(&l, -1, 0, &g, GamepadAction::NavigateUp), None);
    assert_eq!(navigate_cursor(&l, 0, 0, &g, GamepadAction::Confirm), None);
}

#[test]
fn batches_place_results_by_index() {
    let mut slots: Vec<Option<String>> = vec![Some("a".to_string())];
    set_line_results_batch(&mut slots, vec![(3, "d".to_string()), (1, "b".to_string()), (3, "dd".to_string())]);
    assert_eq!(
        slots,
        vec![Some("a".to_string()), Some("b".to_string()), None, Some("dd".to_string())]
    );
    assert_eq!(all_chars(&slots), vec!["a", "b", "d", "d"]);
}

#[test]
fn matched_term_spans_line_boundaries() {
    let chars: Vec<String> = ["日", "本", "語", "を", "学", "ぶ"].iter().map(|c| c.to_string()).collect();
    assert_eq!(matched_term_at(&chars, 1, 3), "本語を");
    // Full-width spaces are skipped, matching the filtered search text.
    let chars: Vec<String> = ["分", "\u{3000}", "野"].iter().map(|c| c.to_string()).collect();
    assert_eq!(matched_term_at(&chars, 0, 3), "分野");
}

#[test]
fn tune_keys_use_the_modified_character() {
    let ch = |s: &str| KeyInput::Character(s.to_string());
    assert_eq!(tune_key_message(&ch("=")), Some(TuneKey::ThresholdUp));
    assert_eq!(tune_key_message(&ch("+")), Some(TuneKey::ThresholdUp));
    assert_eq!(tune_key_message(&ch("-")), Some(TuneKey::ThresholdDown));
    assert_eq!(tune_key_message(&ch("_")), Some(TuneKey::ThresholdDown));
    assert_eq!(tune_key_message(&ch("[")), Some(TuneKey::UnclipDown));
    assert_eq!(tune_key_message(&ch("]")), Some(TuneKey::UnclipUp));
    assert_eq!(tune_key_message(&ch("R")), Some(TuneKey::Reset));
    assert_eq!(tune_key_message(&KeyInput::F1), Some(TuneKey::ToggleHud));
    assert!(tune_key_message(&ch("x")).is_none());
}

#[test]
fn highlights_follow_the_word_across_lines() {
    let l = lines();
    assert_eq!(update_highlight_coords(&l, 0, 1, 3), vec![(0, 1), (3, 0), (3, 1)]);
    assert_eq!(update_highlight_coords(&l, 0, 1, 0), vec![(0, 1)]);
    assert_eq!(update_highlight_coords(&l, 3, 2, 3), vec![(3, 2)]);
}

#[test]
fn a_character_is_replaced_in_place() {
    let mut l = lines();
    assert_eq!(update_character(&mut l, 0, 1, 'の'), Some('本'));
    assert_eq!(l[0].as_deref(), Some("日の"));
    assert_eq!(update_character(&mut l, 1, 0, 'x'), None);
    assert_eq!(update_character(&mut l, 3, 5, 'x'), None);
    assert_eq!(update_character(&mut l, 9, 0, 'x'), None);
    assert_eq!(l, vec![Some("日の".to_string()), None, Some("".to_string()), Some("語です".to_string())]);
}
