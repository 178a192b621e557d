use boyl::help::make_help_box;
use boyl::layout::{distribute, distribute_text, get_splits, VisualBox};

#[test]
fn splits_pick_minimal_badness() {
    // widths 3, 3, 2 at line width 5: "3" alone (badness 8), then "3 2"
    // exactly filling a line (badness 0), beats any other partition.
    let boxes = vec![
        VisualBox::new(3, 1),
        VisualBox::new(3, 1),
        VisualBox::new(2, 1),
    ];
    let splits = get_splits(5, &boxes);
    assert_eq!(splits, vec![1, 3]);
}

#[test]
fn splits_prefer_the_first_of_equal_breakpoints() {
    // both boxes overflow the line on their own; each line holds one box
    let boxes = vec![VisualBox::new(9, 1), VisualBox::new(9, 1)];
    let splits = get_splits(4, &boxes);
    assert_eq!(splits, vec![1, 2]);
}

#[test]
fn distribute_spreads_with_bounded_gap() {
    // one line of two boxes, 2 cells left over: 1 extra cell per box
    let boxes = vec![VisualBox::new(4, 1), VisualBox::new(4, 1)];
    let positions = distribute(10, &boxes);
    assert_eq!(positions, vec![(0, 0), (5, 0)]);
}

#[test]
fn distribute_keeps_spans_within_width() {
    let boxes = vec![
        VisualBox::new(3, 1),
        VisualBox::new(7, 2),
        VisualBox::new(10, 1),
        VisualBox::new(1, 1),
    ];
    let positions = distribute(10, &boxes);
    assert_eq!(positions.len(), boxes.len());
    for (pos, b) in positions.iter().zip(boxes.iter()) {
        assert!(pos.0 as u32 + b.width as u32 <= 10);
    }
}

#[test]
fn distribute_stacks_lines_by_tallest_box() {
    // two lines; the first line's tallest box is 3 cells high
    let boxes = vec![
        VisualBox::new(6, 3),
        VisualBox::new(6, 1),
    ];
    let positions = distribute(8, &boxes);
    assert_eq!(positions, vec![(0, 0), (0, 3)]);
}

#[test]
fn wrapped_text_breaks_words_into_lines() {
    let (wrapped, lines) = distribute_text("aa bb cc", 5);
    assert_eq!(wrapped, "aa \nbb cc\n");
    assert_eq!(lines, 2);
}

#[test]
fn wrapped_text_keeps_paragraphs_apart() {
    let (wrapped, lines) = distribute_text("one\ntwo", 10);
    assert_eq!(wrapped, "one\ntwo\n");
    assert_eq!(lines, 2);
}

#[test]
fn wrapped_text_of_empty_input_is_empty() {
    let (wrapped, lines) = distribute_text("", 10);
    assert_eq!(wrapped, "");
    assert_eq!(lines, 0);
}

#[test]
fn help_box_text_and_width() {
    let (text, vb) = make_help_box("Up/K", "Move up in list");
    assert_eq!(text, "[Up/K] Move up in list");
    assert_eq!(vb.width as usize, text.chars().count());
    assert_eq!(vb.height, 1);
}
