use badascii::rect::Rectangle;
use badascii::tc::TextCoordinate;
use badascii::text_buffer::{Size, TextBuffer, strip_outer};
use badascii::Resize;

#[test]
fn test_trailing_whitespace_trimmed_on_render() {
    let test_text = "
     +--+
     |  |
     +--+
        ";
    let mut tb = TextBuffer::new(10, 20);
    tb.paste(test_text, TextCoordinate { x: 0, y: 1 });
    let render = tb.render();
    assert_eq!(
        render,
        "     +--+
     |  |
     +--+"
    );
}

#[test]
fn test_diag_down_right_iterator() {
    //  123  159487263
    //  456
    //  789
    let test_text = "123\n456\n789\n";
    let tb = TextBuffer::with_text(test_text);
    let mut iter = String::new();
    for (_, c) in tb.iter_diag_down_right() {
        iter.push(c);
    }
    assert_eq!(iter, "159487263");
}

#[test]
fn test_diag_down_left_iterator() {
    //  1234    152963074182
    //  5678
    //  9012
    let test_text = "1234\n5678\n9012\n";
    let tb = TextBuffer::with_text(test_text);
    let mut iter = String::new();
    for (_, c) in tb.iter_diag_up_right() {
        iter.push(c);
    }
    assert_eq!(iter, "152963074182");
}

#[test]
fn test_word_iterator() {
    let test_text = "
a bad
    ay  at_the office
        ";
    let mut tb = TextBuffer::new(5, 30);
    tb.paste(test_text, TextCoordinate { x: 1, y: 1 });
    let words = tb.words();
    assert_eq!(words.len(), 5);
    assert_eq!(words[0].0, TextCoordinate { x: 1, y: 2 });
    assert_eq!(words[0].1, "a");
    assert_eq!(words[1].0, TextCoordinate { x: 3, y: 2 });
    assert_eq!(words[1].1, "bad");
    assert_eq!(words[2].0, TextCoordinate { x: 5, y: 3 });
    assert_eq!(words[2].1, "ay");
    assert_eq!(words[3].0, TextCoordinate { x: 9, y: 3 });
    assert_eq!(words[3].1, "at_the");
    assert_eq!(words[4].0, TextCoordinate { x: 16, y: 3 });
    assert_eq!(words[4].1, "office");
}

#[test]
fn with_text_sizes_to_the_longest_line() {
    let tb = TextBuffer::with_text("ab\ncdef\n");
    let size = tb.size();
    // Three newline-separated pieces (the last one empty), longest is 4.
    assert_eq!(size.num_rows, 3);
    assert_eq!(size.num_cols, 4);
    assert_eq!(tb.get(TextCoordinate { x: 3, y: 1 }), Some('f'));
    assert_eq!(tb.get(TextCoordinate { x: 3, y: 0 }), None);
}

#[test]
fn set_text_space_clears_and_bounds_are_ignored() {
    let mut tb = TextBuffer::new(3, 3);
    tb.set_text(&TextCoordinate { x: 1, y: 1 }, Some('x'));
    assert_eq!(tb.get(TextCoordinate { x: 1, y: 1 }), Some('x'));
    tb.set_text(&TextCoordinate { x: 1, y: 1 }, Some(' '));
    assert_eq!(tb.get(TextCoordinate { x: 1, y: 1 }), None);
    // A write outside the grid changes nothing and does not panic.
    tb.set_text(&TextCoordinate { x: 9, y: 9 }, Some('x'));
    assert_eq!(tb.get(TextCoordinate { x: 9, y: 9 }), None);
}

#[test]
fn merge_text_keeps_cells_on_none() {
    let mut tb = TextBuffer::new(2, 2);
    tb.set_text(&TextCoordinate { x: 0, y: 0 }, Some('x'));
    tb.merge_text(&TextCoordinate { x: 0, y: 0 }, None);
    assert_eq!(tb.get(TextCoordinate { x: 0, y: 0 }), Some('x'));
    tb.merge_text(&TextCoordinate { x: 0, y: 0 }, Some('y'));
    assert_eq!(tb.get(TextCoordinate { x: 0, y: 0 }), Some('y'));
}

#[test]
fn paste_reports_the_bounding_rectangle() {
    let mut tb = TextBuffer::new(10, 10);
    let rect = tb.paste("ab\nc", TextCoordinate { x: 2, y: 3 });
    assert_eq!(rect.corner_1, TextCoordinate { x: 2, y: 3 });
    assert_eq!(rect.corner_2, TextCoordinate { x: 3, y: 4 });
}

#[test]
fn window_copies_the_selection() {
    let mut tb = TextBuffer::new(5, 5);
    tb.paste("ab\ncd", TextCoordinate { x: 1, y: 1 });
    let win = tb.window(&Rectangle {
        corner_1: TextCoordinate { x: 1, y: 1 },
        corner_2: TextCoordinate { x: 2, y: 2 },
    });
    assert_eq!(win.size().num_rows, 2);
    assert_eq!(win.size().num_cols, 2);
    assert_eq!(win.get(TextCoordinate { x: 0, y: 0 }), Some('a'));
    assert_eq!(win.get(TextCoordinate { x: 1, y: 1 }), Some('d'));
}

#[test]
fn resize_keeps_the_overlap() {
    let mut tb = TextBuffer::new(3, 3);
    tb.set_text(&TextCoordinate { x: 2, y: 2 }, Some('z'));
    tb.set_text(&TextCoordinate { x: 0, y: 0 }, Some('a'));
    let small = tb.resize(Resize { num_rows: 2, num_cols: 2 });
    assert_eq!(small.get(TextCoordinate { x: 0, y: 0 }), Some('a'));
    assert_eq!(small.get(TextCoordinate { x: 2, y: 2 }), None);
    let big = tb.resize(Resize { num_rows: 4, num_cols: 4 });
    assert_eq!(big.get(TextCoordinate { x: 2, y: 2 }), Some('z'));
    assert_eq!(big.get(TextCoordinate { x: 3, y: 3 }), None);
}

#[test]
fn clear_rectangle_blanks_the_selection() {
    let mut tb = TextBuffer::new(4, 4);
    tb.paste("abcd\nefgh\nijkl\nmnop", TextCoordinate { x: 0, y: 0 });
    tb.clear_rectangle(Rectangle {
        corner_1: TextCoordinate { x: 1, y: 1 },
        corner_2: TextCoordinate { x: 2, y: 2 },
    });
    assert_eq!(tb.get(TextCoordinate { x: 1, y: 1 }), None);
    assert_eq!(tb.get(TextCoordinate { x: 2, y: 2 }), None);
    assert_eq!(tb.get(TextCoordinate { x: 0, y: 0 }), Some('a'));
    assert_eq!(tb.get(TextCoordinate { x: 3, y: 3 }), Some('p'));
}

#[test]
fn clear_all_blanks_everything() {
    let mut tb = TextBuffer::new(2, 2);
    tb.paste("xy\nzw", TextCoordinate { x: 0, y: 0 });
    tb.clear_all();
    assert_eq!(tb.render(), "");
}

#[test]
fn size_type_round_trips() {
    let tb = TextBuffer::new(7, 9);
    let size: Size = tb.size();
    assert_eq!(size.num_rows, 7);
    assert_eq!(size.num_cols, 9);
}

#[test]
fn strip_outer_keeps_what_the_quotes_enclose() {
    assert_eq!(strip_outer("prefix \"kept text\" suffix"), "kept text");
    assert_eq!(strip_outer("\"a\""), "a");
    assert_eq!(strip_outer("no quotes at all"), "");
    assert_eq!(strip_outer("only \"one quote"), "");
    assert_eq!(strip_outer("\"inner \"quote\" stays\""), "inner \"quote\" stays");
}
