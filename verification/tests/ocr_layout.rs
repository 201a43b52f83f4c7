use accessibility_daemon::ocr_layout::{
    gap_len, is_snap_skipped, is_vertical_closing_punct, is_vertical_opening_punct, overlap_len,
    sort_detected_boxes, LineBox,
};

#[test]
fn vertical_punctuation_sets_match_android() {
    for ch in "。.．、,，)）〕》」』】〙〗〟’”］".chars() {
        assert!(is_vertical_closing_punct(ch), "closing {ch:?}");
    }
    for ch in "(（〔《「『【〘〖〝‘“［".chars() {
        assert!(is_vertical_opening_punct(ch), "opening {ch:?}");
    }
    assert!(!is_vertical_closing_punct('〉'));
    assert!(!is_vertical_opening_punct('〈'));
    assert!(!is_vertical_closing_punct('a'));
}

#[test]
fn interval_overlap_and_gap() {
    assert_eq!(overlap_len(0, 10, 5, 20), 5);
    assert_eq!(overlap_len(0, 10, 20, 30), 0);
    assert_eq!(gap_len(0, 10, 20, 30), 10);
    assert_eq!(gap_len(0, 10, 5, 20), 0);
    assert_eq!(overlap_len(-5, 5, -5, 5), 10);
}

#[test]
fn snap_skips_small_kana_and_off_centre_marks() {
    assert!(is_snap_skipped('っ'));
    assert!(is_snap_skipped('ヶ'));
    assert!(is_snap_skipped('、'));
    assert!(is_snap_skipped('…'));
    assert!(is_snap_skipped('"'));
    assert!(!is_snap_skipped('あ'));
    assert!(!is_snap_skipped('漢'));
    assert!(!is_snap_skipped('ー'));
}

#[test]
fn lines_are_read_horizontal_first_then_columns_from_the_right() {
    let b = |x: i32, y: i32, w: i32, vertical: bool| LineBox { x, y, w, h: 20, vertical };
    let boxes = vec![
        b(50, 10, 30, false),
        b(100, 5, 20, true),
        b(10, 10, 30, false),
        b(200, 0, 10, true),
        b(10, 5, 30, false),
        b(110, 0, 10, true),
    ];
    assert_eq!(sort_detected_boxes(&boxes), vec![4, 2, 0, 3, 5, 1]);
    let same = vec![b(1, 1, 1, false), b(1, 1, 1, false)];
    assert_eq!(sort_detected_boxes(&same), vec![0, 1]);
    assert_eq!(sort_detected_boxes(&vec![]), Vec::<usize>::new());
}
